//! The chat: what players type into it, and the lines shown in its history.

use vstd::prelude::*;
use vstd::string::StringExecFns;

verus! {

/// The interface players type chat messages into.
pub open spec fn chat_input_path() -> Seq<char> {
    "chat/input"@
}

/// Whether a text input came from the chat's input field.
pub fn is_chat_input(interface_path: &str) -> (r: bool)
    ensures
        r == (interface_path@ == chat_input_path()),
{
    let path = interface_path.to_owned();
    let input = "chat/input".to_owned();
    proof {
        reveal_strlit("chat/input");
    }
    path == input
}

/// The interface the chat history is shown in.
pub fn chat_history_path() -> (r: String)
    ensures
        r@ == "chat/history"@,
{
    "chat/history".to_owned()
}

/// The color of chat text.
pub fn chat_text_color() -> (r: String)
    ensures
        r@ == "#ffffff"@,
{
    "#ffffff".to_owned()
}

/// The history line for a message a player sent: the name in brackets, then the text.
pub fn chat_line(username: &str, text: &str) -> (r: String)
    ensures
        r@ == "["@ + username@ + "] "@ + text@,
{
    let mut line = "[".to_owned();
    line.append(username);
    line.append("] ");
    line.append(text);
    line
}

/// The history line announcing that a player joined.
pub fn joined_line(username: &str) -> (r: String)
    ensures
        r@ == username@ + " joined the game"@,
{
    let mut line = username.to_owned();
    line.append(" joined the game");
    line
}

/// The history line announcing that a player left.
pub fn left_line(username: &str) -> (r: String)
    ensures
        r@ == username@ + " left the game"@,
{
    let mut line = username.to_owned();
    line.append(" left the game");
    line
}

} // verus!
