//! The client's command line.
//!
//! ```text
//! weavedraw [ROOM] [--server ws://host:port/ws] [--name NAME]
//! ```
//! Every flag can also come from `WEAVEDRAW_SERVER`, `WEAVEDRAW_ROOM` and
//! `WEAVEDRAW_NAME`; command-line arguments win.

use vstd::prelude::*;

use crate::ids::{be_bytes, hex_of, id_hex, is_random_id, random_id};
use crate::net::{NetConfig, NetConfigView};
use crate::palette::{presence, presence_color};
use crate::text::{blank, from_chars, is_blank, same_text, to_chars};
use crate::types::ClientId;

verus! {

/// The environment variables that are set.
#[derive(Debug)]
pub struct Vars {
    /// `WEAVEDRAW_SERVER`.
    pub server: Option<String>,
    /// `WEAVEDRAW_ROOM`.
    pub room: Option<String>,
    /// `WEAVEDRAW_NAME`.
    pub name: Option<String>,
    /// `USER`.
    pub user: Option<String>,
}

/// What the command line and the environment ask for.
#[derive(Debug)]
pub struct Choice {
    pub url: String,
    pub room: String,
    pub name: Option<String>,
}

/// Mathematical counterpart of [`Choice`].
pub struct ChoiceView {
    pub url: Seq<char>,
    pub room: Seq<char>,
    pub name: Option<Seq<char>>,
}

pub open spec fn text_of(text: Option<String>) -> Option<Seq<char>> {
    match text {
        Some(t) => Some(t@),
        None => None,
    }
}

impl View for Choice {
    type V = ChoiceView;

    open spec fn view(&self) -> ChoiceView {
        ChoiceView { url: self.url@, room: self.room@, name: text_of(self.name) }
    }
}

/// Why the command line cannot be followed.
#[derive(Debug)]
pub enum ArgError {
    ServerNeedsUrl,
    NameNeedsValue,
    UnknownFlag(String),
}

/// Mathematical counterpart of [`ArgError`].
pub enum ArgFault {
    ServerNeedsUrl,
    NameNeedsValue,
    UnknownFlag(Seq<char>),
}

impl View for ArgError {
    type V = ArgFault;

    open spec fn view(&self) -> ArgFault {
        match self {
            ArgError::ServerNeedsUrl => ArgFault::ServerNeedsUrl,
            ArgError::NameNeedsValue => ArgFault::NameNeedsValue,
            ArgError::UnknownFlag(flag) => ArgFault::UnknownFlag(flag@),
        }
    }
}

impl ArgError {
    /// The words shown to a user.
    pub open spec fn words(self) -> Seq<char> {
        match self {
            ArgError::ServerNeedsUrl => "--server needs a URL"@,
            ArgError::NameNeedsValue => "--name needs a value"@,
            ArgError::UnknownFlag(flag) => "unknown flag "@ + flag@,
        }
    }

    /// The words shown to a user.
    pub fn describe(&self) -> (r: String)
        ensures
            r@ == self.words(),
    {
        match self {
            ArgError::ServerNeedsUrl => "--server needs a URL".to_owned(),
            ArgError::NameNeedsValue => "--name needs a value".to_owned(),
            ArgError::UnknownFlag(flag) => {
                let mut out = "unknown flag ".to_owned();
                out.append(flag.as_str());
                out
            },
        }
    }
}

/// What is printed when help is asked for.
pub fn usage() -> (r: &'static str)
    ensures
        r@ == "usage: weavedraw [ROOM] [--server URL] [--name NAME]"@,
{
    "usage: weavedraw [ROOM] [--server URL] [--name NAME]"
}

/// What arguments come to, from the choice made so far: `None` where help is
/// asked for.
pub open spec fn chosen(args: Seq<Seq<char>>, so_far: ChoiceView) -> Result<
    Option<ChoiceView>,
    ArgFault,
>
    decreases args.len(),
{
    if args.len() == 0 {
        Ok(Some(so_far))
    } else if args[0] == "-h"@ || args[0] == "--help"@ {
        Ok(None)
    } else if args[0] == "--server"@ || args[0] == "-s"@ {
        if args.len() == 1 {
            Err(ArgFault::ServerNeedsUrl)
        } else {
            chosen(args.skip(2), ChoiceView { url: args[1], ..so_far })
        }
    } else if args[0] == "--name"@ || args[0] == "-n"@ {
        if args.len() == 1 {
            Err(ArgFault::NameNeedsValue)
        } else {
            chosen(args.skip(2), ChoiceView { name: Some(args[1]), ..so_far })
        }
    } else if args[0].len() > 0 && args[0][0] == '-' {
        Err(ArgFault::UnknownFlag(args[0]))
    } else {
        chosen(args.skip(1), ChoiceView { room: args[0], ..so_far })
    }
}

/// What the environment alone asks for.
pub open spec fn standing(vars: Vars) -> ChoiceView {
    ChoiceView {
        url: match vars.server {
            Some(v) => v@,
            None => "ws://127.0.0.1:8080/ws"@,
        },
        room: match vars.room {
            Some(v) => v@,
            None => "lobby"@,
        },
        name: text_of(vars.name),
    }
}

pub open spec fn arg_views(args: Seq<String>) -> Seq<Seq<char>> {
    args.map_values(|a: String| a@)
}

fn is_flag(arg: &str) -> (r: bool)
    ensures
        r == (arg@.len() > 0 && arg@[0] == '-'),
{
    let chars = to_chars(arg);
    chars.len() > 0 && chars[0] == '-'
}

/// Follow the command line, on top of the environment. `None` where help is
/// asked for.
pub fn choose_args(vars: &Vars, args: &Vec<String>) -> (r: Result<Option<Choice>, ArgError>)
    ensures
        match (r, chosen(arg_views(args@), standing(*vars))) {
            (Ok(Some(c)), Ok(Some(want))) => c@ == want,
            (Ok(None), Ok(None)) => true,
            (Err(e), Err(fault)) => e@ == fault,
            _ => false,
        },
{
    let mut choice = Choice {
        url: match &vars.server {
            Some(v) => v.clone(),
            None => "ws://127.0.0.1:8080/ws".to_owned(),
        },
        room: match &vars.room {
            Some(v) => v.clone(),
            None => "lobby".to_owned(),
        },
        name: match &vars.name {
            Some(v) => Some(v.clone()),
            None => None,
        },
    };
    let ghost all = arg_views(args@);
    let ghost want = chosen(all, standing(*vars));
    assert(all.skip(0) =~= all);
    let mut i: usize = 0;
    while i < args.len()
        invariant
            i <= args@.len(),
            all == arg_views(args@),
            want == chosen(all.skip(i as int), choice@),
            want == chosen(arg_views(args@), standing(*vars)),
        decreases args.len() - i,
    {
        let arg = args[i].as_str();
        let ghost rest = all.skip(i as int);
        proof {
            assert(rest[0] == arg@);
            assert(rest.skip(1) =~= all.skip(i + 1));
            if i + 1 < args@.len() {
                assert(rest[1] == args@[i + 1]@);
                assert(rest.skip(2) =~= all.skip(i + 2));
            }
        }
        if same_text(arg, "-h") || same_text(arg, "--help") {
            return Ok(None);
        } else if same_text(arg, "--server") || same_text(arg, "-s") {
            if i + 1 == args.len() {
                return Err(ArgError::ServerNeedsUrl);
            }
            choice.url = args[i + 1].clone();
            i += 2;
        } else if same_text(arg, "--name") || same_text(arg, "-n") {
            if i + 1 == args.len() {
                return Err(ArgError::NameNeedsValue);
            }
            choice.name = Some(args[i + 1].clone());
            i += 2;
        } else if is_flag(arg) {
            return Err(ArgError::UnknownFlag(args[i].clone()));
        } else {
            choice.room = args[i].clone();
            i += 1;
        }
    }
    Ok(Some(choice))
}

/// The name of a peer that gave none.
pub open spec fn guest(id: ClientId) -> Seq<char> {
    "guest-"@ + hex_of(be_bytes(id as nat, 16)).take(4)
}

/// The name to show: the one given, unless there is none to speak of.
pub fn display_name(given: Option<String>, unusable: bool, id: ClientId) -> (r: String)
    ensures
        r@ == (match given {
            Some(name) => if unusable {
                guest(id)
            } else {
                name@
            },
            None => guest(id),
        }),
{
    if let Some(name) = given {
        if !unusable {
            return name;
        }
    }
    let mut digits = to_chars(id_hex(id).as_str());
    proof {
        crate::ids::lemma_be_bytes_len(id as nat, 16);
    }
    digits.truncate(4);
    let mut out = "guest-".to_owned();
    out.append(from_chars(&digits).as_str());
    out
}

/// The name given on the command line or in the environment, else the user's.
pub open spec fn given_name(choice: ChoiceView, vars: Vars) -> Option<Seq<char>> {
    match choice.name {
        Some(name) => Some(name),
        None => text_of(vars.user),
    }
}

/// The session that is asked for, under an id.
pub open spec fn session(choice: ChoiceView, vars: Vars, id: ClientId) -> NetConfigView {
    NetConfigView {
        url: choice.url,
        room: choice.room,
        name: match given_name(choice, vars) {
            Some(name) => if blank(name) {
                guest(id)
            } else {
                name
            },
            None => guest(id),
        },
        color: presence(id),
        client_id: id,
    }
}

/// Settle on a session under an id.
pub fn configure(choice: Choice, vars: &Vars, id: ClientId) -> (r: NetConfig)
    ensures
        r@ == session(choice@, *vars, id),
{
    let given = match choice.name {
        Some(name) => Some(name),
        None => match &vars.user {
            Some(user) => Some(user.clone()),
            None => None,
        },
    };
    let unusable = match &given {
        Some(name) => is_blank(name.as_str()),
        None => true,
    };
    NetConfig {
        url: choice.url,
        room: choice.room,
        name: display_name(given, unusable, id),
        color: presence_color(id),
        client_id: id,
    }
}

/// The session that the command line and the environment ask for, under a fresh
/// id. `None` where help is asked for.
pub fn parse_args(vars: &Vars, args: &Vec<String>) -> (r: Result<Option<NetConfig>, ArgError>)
    ensures
        match (r, chosen(arg_views(args@), standing(*vars))) {
            (Ok(Some(c)), Ok(Some(choice))) => is_random_id(c.client_id) && c@ == session(
                choice,
                *vars,
                c.client_id,
            ),
            (Ok(None), Ok(None)) => true,
            (Err(e), Err(fault)) => e@ == fault,
            _ => false,
        },
{
    match choose_args(vars, args) {
        Ok(Some(choice)) => Ok(Some(configure(choice, vars, random_id()))),
        Ok(None) => Ok(None),
        Err(e) => Err(e),
    }
}

} // verus!
