//! The command line of the server: its arguments and the commands typed into its terminal.

use vstd::prelude::*;
use vstd::string::StrSliceExecFns;

verus! {

/// The base arguments of the server. These must be handled for the client to be able to run it.
#[derive(Debug)]
pub struct Cli {
    world_path: Option<String>,
    extract_assets: bool,
}

/// Whether a text starts with a dash, as options do.
pub open spec fn is_option(arg: Seq<char>) -> bool {
    arg.len() > 0 && arg[0] == '-'
}

/// The world path named by the arguments: the first one, unless it is an option.
pub open spec fn world_path_of(args: Seq<String>) -> Option<String> {
    if args.len() > 0 && !is_option(args[0]@) {
        Some(args[0])
    } else {
        None
    }
}

/// Whether the arguments ask for the assets to be extracted.
pub open spec fn extract_assets_of(args: Seq<String>) -> bool {
    exists|k: int| 0 <= k < args.len() && #[trigger] args[k]@ == "--extract-assets"@
}

impl Cli {
    /// The world path given, if any.
    pub closed spec fn spec_world_path(&self) -> Option<String> {
        self.world_path
    }

    /// Whether the assets are to be extracted.
    pub closed spec fn spec_extract_assets(&self) -> bool {
        self.extract_assets
    }

    /// Reads the arguments the server was started with, the program's name left out. The
    /// first argument is the world path, unless it is an option; `--extract-assets` anywhere
    /// asks for the assets to be extracted.
    pub fn parse(args: &Vec<String>) -> (r: Cli)
        ensures
            r.spec_world_path() == world_path_of(args@),
            r.spec_extract_assets() == extract_assets_of(args@),
    {
        let mut cli = Cli { world_path: None, extract_assets: false };
        let flag = "--extract-assets".to_owned();
        let mut i: usize = 0;
        while i < args.len()
            invariant
                i <= args.len(),
                flag@ == "--extract-assets"@,
                cli.world_path == if i > 0 {
                    world_path_of(args@)
                } else {
                    None
                },
                cli.extract_assets == exists|k: int| 0 <= k < i && #[trigger] args@[k]@
                    == "--extract-assets"@,
            decreases args.len() - i,
        {
            let arg = &args[i];
            if i == 0 {
                let starts_with_dash = !arg.as_str().is_empty() && arg.as_str().get_char(0) == '-';
                if !starts_with_dash {
                    cli.world_path = Some(arg.clone());
                    proof {
                        reveal_strlit("--extract-assets");
                        assert(args@[0]@ != "--extract-assets"@) by {
                            assert("--extract-assets"@[0] == '-');
                        }
                    }
                    i += 1;
                    continue;
                }
            }
            if *arg == flag {
                cli.extract_assets = true;
            }
            i += 1;
        }
        cli
    }

    /// The world path, if one was given; it should not be overridden.
    pub fn world_path(&self) -> (r: Option<&String>)
        ensures
            match self.spec_world_path() {
                Some(path) => r == Some(&path),
                None => r is None,
            },
    {
        self.world_path.as_ref()
    }

    /// If true, extract the assets folder and terminate immediately.
    pub fn extract_assets(&self) -> (r: bool)
        ensures
            r == self.spec_extract_assets(),
    {
        self.extract_assets
    }
}

/// Whether the character has the Unicode property White_Space: the characters `str::trim`
/// removes.
pub open spec fn is_white_space(c: char) -> bool {
    let n = c as u32;
    ||| 0x9 <= n <= 0xd
    ||| n == 0x20
    ||| n == 0x85
    ||| n == 0xa0
    ||| n == 0x1680
    ||| 0x2000 <= n <= 0x200a
    ||| n == 0x2028
    ||| n == 0x2029
    ||| n == 0x202f
    ||| n == 0x205f
    ||| n == 0x3000
}

/// The text without its leading white space.
pub open spec fn trimmed_start(text: Seq<char>) -> Seq<char>
    decreases text.len(),
{
    if text.len() > 0 && is_white_space(text[0]) {
        trimmed_start(text.drop_first())
    } else {
        text
    }
}

/// The text without its trailing white space.
pub open spec fn trimmed_end(text: Seq<char>) -> Seq<char>
    decreases text.len(),
{
    if text.len() > 0 && is_white_space(text.last()) {
        trimmed_end(text.drop_last())
    } else {
        text
    }
}

/// The text without leading and trailing white space.
pub open spec fn trimmed(text: Seq<char>) -> Seq<char> {
    trimmed_end(trimmed_start(text))
}

/// `str::trim`: the text with leading and trailing white space removed, white space being
/// the characters with the Unicode property White_Space.
#[verifier::external_body]
fn trim(text: &str) -> (r: &str)
    ensures
        r@ == trimmed(text@),
{
    text.trim()
}

/// Whether a line, already trimmed, is the command that stops the server.
pub fn is_stop(trimmed_line: &str) -> (r: bool)
    ensures
        r == (trimmed_line@ == "stop"@),
{
    let line = trimmed_line.to_owned();
    let stop = "stop".to_owned();
    line == stop
}

/// Whether a line typed into the terminal stops the server: it reads "stop", white space
/// around it aside.
pub fn is_stop_command(input: &str) -> (r: bool)
    ensures
        r == (trimmed(input@) == "stop"@),
{
    is_stop(trim(input))
}

} // verus!
