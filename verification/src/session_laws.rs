//! Laws of how a session is set up and steered: configuration, command line and
//! keys.

use vstd::prelude::*;

use crate::args::{chosen, guest, session, standing, ArgError, ArgFault, ChoiceView};
use crate::config::{ConfigError, ConfigView};
use crate::ids::{be_bytes, hex_of, lemma_be_bytes_len};
use crate::palette::presence;
use crate::text::{blank, digits_value, unsigned_value};
use crate::tool::{only_if, Command, KeyName, Keys, Press, Tool};
use crate::types::ClientId;

verus! {

/// What a variable of the environment does not set keeps its standard value;
/// what it sets is taken as it is, the flush interval in seconds.
pub proof fn law_the_environment_overrides(vars: crate::config::Vars)
    requires
        vars.fault() is None,
    ensures
        ({
            let c = vars.config();
            &&& c.addr == (match vars.addr {
                Some(v) => v@,
                None => "127.0.0.1:8080"@,
            })
            &&& c.data_dir == (match vars.data_dir {
                Some(v) => v@,
                None => "data"@,
            })
            &&& match vars.max_peers {
                Some(v) => unsigned_value(v@, usize::MAX as int) == Some(c.max_peers as int),
                None => c.max_peers == 64,
            }
            &&& match vars.flush_secs {
                Some(v) => exists|secs: int|
                    unsigned_value(v@, u64::MAX as int) == Some(secs) && c.flush_interval_ms
                        == #[trigger] (1000 * secs),
                None => c.flush_interval_ms == 2_000,
            }
            &&& c.hello_timeout_ms == 10_000
        }),
{
    if let Some(v) = vars.max_peers {
        lemma_not_negative(v@, usize::MAX as int);
    }
    if let Some(v) = vars.flush_secs {
        lemma_not_negative(v@, u64::MAX as int);
        let secs = unsigned_value(v@, u64::MAX as int)->0;
        assert(vars.config().flush_interval_ms == 1000 * secs);
    }
}

proof fn lemma_not_negative(s: Seq<char>, max: int)
    ensures
        unsigned_value(s, max) matches Some(v) ==> v >= 0,
{
    lemma_digits_not_negative(s);
    lemma_digits_not_negative(s.skip(1));
}

proof fn lemma_digits_not_negative(s: Seq<char>)
    ensures
        digits_value(s) matches Some(v) ==> v >= 0,
    decreases s.len(),
{
    if s.len() > 0 {
        lemma_digits_not_negative(s.drop_last());
    }
}

/// The configuration is refused exactly where a variable that is set cannot be
/// read, and the first such one is named.
pub proof fn law_faults_in_the_environment(vars: crate::config::Vars)
    ensures
        ({
            let addr = vars.addr is Some && !vars.addr_is_valid;
            let peers = vars.max_peers matches Some(v) && unsigned_value(
                v@,
                usize::MAX as int,
            ) is None;
            let secs = vars.flush_secs matches Some(v) && unsigned_value(
                v@,
                u64::MAX as int,
            ) is None;
            &&& vars.fault() is None <==> !addr && !peers && !secs
            &&& vars.fault() == Some(ConfigError::Addr) <==> addr
            &&& vars.fault() == Some(ConfigError::MaxPeers) <==> !addr && peers
            &&& vars.fault() == Some(ConfigError::FlushSecs) <==> !addr && !peers && secs
        }),
{
}

/// What stands at the end of the command line is added to what stands before it:
/// a flag with its value and a room override what was chosen so far, help and
/// mistakes end it.
pub proof fn law_the_command_line_adds_up(
    args: Seq<Seq<char>>,
    start: ChoiceView,
    so_far: ChoiceView,
    word: Seq<char>,
)
    requires
        chosen(args, start) == Ok::<Option<ChoiceView>, ArgFault>(Some(so_far)),
    ensures
        chosen(Seq::empty(), start) == Ok::<Option<ChoiceView>, ArgFault>(Some(start)),
        chosen(args + seq!["--server"@, word], start) == Ok::<Option<ChoiceView>, ArgFault>(
            Some(ChoiceView { url: word, ..so_far }),
        ),
        chosen(args + seq!["-s"@, word], start) == Ok::<Option<ChoiceView>, ArgFault>(
            Some(ChoiceView { url: word, ..so_far }),
        ),
        chosen(args + seq!["--name"@, word], start) == Ok::<Option<ChoiceView>, ArgFault>(
            Some(ChoiceView { name: Some(word), ..so_far }),
        ),
        chosen(args + seq!["-n"@, word], start) == Ok::<Option<ChoiceView>, ArgFault>(
            Some(ChoiceView { name: Some(word), ..so_far }),
        ),
        word.len() == 0 || word[0] != '-' ==> chosen(args + seq![word], start) == Ok::<
            Option<ChoiceView>,
            ArgFault,
        >(Some(ChoiceView { room: word, ..so_far })),
        chosen(args + seq!["--help"@], start) == Ok::<Option<ChoiceView>, ArgFault>(None),
        chosen(args + seq!["-h"@], start) == Ok::<Option<ChoiceView>, ArgFault>(None),
        chosen(args + seq!["--server"@], start) == Err::<Option<ChoiceView>, ArgFault>(
            ArgFault::ServerNeedsUrl,
        ),
        chosen(args + seq!["-s"@], start) == Err::<Option<ChoiceView>, ArgFault>(
            ArgFault::ServerNeedsUrl,
        ),
        chosen(args + seq!["--name"@], start) == Err::<Option<ChoiceView>, ArgFault>(
            ArgFault::NameNeedsValue,
        ),
        chosen(args + seq!["-n"@], start) == Err::<Option<ChoiceView>, ArgFault>(
            ArgFault::NameNeedsValue,
        ),
        word.len() > 0 && word[0] == '-' && word != "-h"@ && word != "--help"@ && word != "-s"@
            && word != "--server"@ && word != "-n"@ && word != "--name"@ ==> chosen(
            args + seq![word],
            start,
        ) == Err::<Option<ChoiceView>, ArgFault>(ArgFault::UnknownFlag(word)),
{
    lemma_words();
    lemma_continues(args, seq!["--server"@, word], start, so_far);
    lemma_continues(args, seq!["-s"@, word], start, so_far);
    lemma_continues(args, seq!["--name"@, word], start, so_far);
    lemma_continues(args, seq!["-n"@, word], start, so_far);
    lemma_continues(args, seq![word], start, so_far);
    lemma_continues(args, seq!["--help"@], start, so_far);
    lemma_continues(args, seq!["-h"@], start, so_far);
    lemma_continues(args, seq!["--server"@], start, so_far);
    lemma_continues(args, seq!["-s"@], start, so_far);
    lemma_continues(args, seq!["--name"@], start, so_far);
    lemma_continues(args, seq!["-n"@], start, so_far);
    reveal_with_fuel(chosen, 2);
    assert(seq!["--server"@, word].skip(2) =~= Seq::empty());
    assert(seq!["-s"@, word].skip(2) =~= Seq::empty());
    assert(seq!["--name"@, word].skip(2) =~= Seq::empty());
    assert(seq!["-n"@, word].skip(2) =~= Seq::empty());
    assert(seq![word].skip(1) =~= Seq::empty());
}

/// The flags are distinct words that begin with a hyphen.
proof fn lemma_words()
    ensures
        "-h"@ != "--help"@,
        "-h"@ != "--server"@ && "-h"@ != "-s"@ && "-h"@ != "--name"@ && "-h"@ != "-n"@,
        "--help"@ != "--server"@ && "--help"@ != "-s"@ && "--help"@ != "--name"@ && "--help"@
            != "-n"@,
        "--server"@ != "--name"@ && "--server"@ != "-n"@,
        "-s"@ != "--name"@ && "-s"@ != "-n"@,
        "-h"@.len() > 0 && "-h"@[0] == '-',
        "--help"@.len() > 0 && "--help"@[0] == '-',
        "-s"@.len() > 0 && "-s"@[0] == '-',
        "--server"@.len() > 0 && "--server"@[0] == '-',
        "-n"@.len() > 0 && "-n"@[0] == '-',
        "--name"@.len() > 0 && "--name"@[0] == '-',
{
    reveal_strlit("-h");
    reveal_strlit("--help");
    reveal_strlit("-s");
    reveal_strlit("--server");
    reveal_strlit("-n");
    reveal_strlit("--name");
    assert("-h"@[1] != "-s"@[1] && "-h"@[1] != "-n"@[1] && "-s"@[1] != "-n"@[1]);
    assert("--help"@.len() != "--server"@.len());
    assert("--help"@[2] != "--name"@[2]);
}

/// What follows a complete command line is read from where it left off.
proof fn lemma_continues(
    args: Seq<Seq<char>>,
    more: Seq<Seq<char>>,
    start: ChoiceView,
    so_far: ChoiceView,
)
    requires
        chosen(args, start) == Ok::<Option<ChoiceView>, ArgFault>(Some(so_far)),
    ensures
        chosen(args + more, start) == chosen(more, so_far),
    decreases args.len(),
{
    let all = args + more;
    if args.len() == 0 {
        assert(all =~= more);
    } else {
        assert(all[0] == args[0]);
        if args.len() >= 2 {
            assert(all[1] == args[1]);
            assert(all.skip(2) =~= args.skip(2) + more);
        }
        assert(all.skip(1) =~= args.skip(1) + more);
        if args[0] == "--server"@ || args[0] == "-s"@ {
            lemma_continues(args.skip(2), more, ChoiceView { url: args[1], ..start }, so_far);
        } else if args[0] == "--name"@ || args[0] == "-n"@ {
            lemma_continues(
                args.skip(2),
                more,
                ChoiceView { name: Some(args[1]), ..start },
                so_far,
            );
        } else {
            lemma_continues(args.skip(1), more, ChoiceView { room: args[0], ..start }, so_far);
        }
    }
}

/// Help and an unknown flag end the reading: nothing behind them counts.
pub proof fn law_nothing_counts_after_a_stop(
    args: Seq<Seq<char>>,
    more: Seq<Seq<char>>,
    start: ChoiceView,
)
    requires
        match chosen(args, start) {
            Ok(choice) => choice is None,
            Err(fault) => fault is UnknownFlag,
        },
    ensures
        chosen(args + more, start) == chosen(args, start),
    decreases args.len(),
{
    let all = args + more;
    if args.len() > 0 {
        assert(all[0] == args[0]);
        if args.len() >= 2 {
            assert(all[1] == args[1]);
            assert(all.skip(2) =~= args.skip(2) + more);
        }
        assert(all.skip(1) =~= args.skip(1) + more);
        if args[0] == "-h"@ || args[0] == "--help"@ {
        } else if args[0] == "--server"@ || args[0] == "-s"@ {
            law_nothing_counts_after_a_stop(
                args.skip(2),
                more,
                ChoiceView { url: args[1], ..start },
            );
        } else if args[0] == "--name"@ || args[0] == "-n"@ {
            law_nothing_counts_after_a_stop(
                args.skip(2),
                more,
                ChoiceView { name: Some(args[1]), ..start },
            );
        } else if args[0].len() > 0 && args[0][0] == '-' {
        } else {
            law_nothing_counts_after_a_stop(
                args.skip(1),
                more,
                ChoiceView { room: args[0], ..start },
            );
        }
    }
}

/// Without a command line the environment decides, and without that the server
/// on this machine, the lobby, and no name.
pub proof fn law_the_environment_stands(vars: crate::args::Vars)
    ensures
        ({
            let c = standing(vars);
            &&& vars.server is None ==> c.url == "ws://127.0.0.1:8080/ws"@
            &&& vars.server matches Some(v) ==> c.url == v@
            &&& vars.room is None ==> c.room == "lobby"@
            &&& vars.room matches Some(v) ==> c.room == v@
            &&& vars.name is None ==> c.name is None
            &&& vars.name matches Some(v) ==> c.name == Some(v@)
        }),
{
}

/// A session is for the server and the room that were chosen, under the id and
/// its colour. The name is the one chosen, else the user's, else that of a guest,
/// who is told apart by the first digits of the id; blank names do not count.
pub proof fn law_sessions_are_named(choice: ChoiceView, vars: crate::args::Vars, id: ClientId)
    ensures
        ({
            let s = session(choice, vars, id);
            let named = if choice.name is Some {
                choice.name
            } else if vars.user is Some {
                Some(vars.user->0@)
            } else {
                None
            };
            &&& s.url == choice.url
            &&& s.room == choice.room
            &&& s.client_id == id
            &&& s.color == presence(id)
            &&& named is Some && !blank(named->0) ==> s.name == named->0
            &&& named is None || blank(named->0) ==> s.name == guest(id)
        }),
        guest(id).len() == 10,
        guest(id).take(6) == "guest-"@,
        guest(id).skip(6) == hex_of(be_bytes(id as nat, 16)).take(4),
{
    reveal_strlit("guest-");
    lemma_be_bytes_len(id as nat, 16);
    assert(guest(id).take(6) =~= "guest-"@);
    assert(guest(id).skip(6) =~= hex_of(be_bytes(id as nat, 16)).take(4));
}

/// What each key asks for: undo, redo and clear need the command key, the keys
/// of tools and brushes want neither it nor Ctrl.
pub proof fn law_keys_have_meanings(p: Press)
    ensures
        ({
            let plain = !p.command && !p.ctrl;
            let asks = p.asks();
            &&& asks == Some(Command::Undo) <==> p.key == KeyName::Z && p.command && !p.shift
            &&& asks == Some(Command::Redo) <==> p.command && ((p.key == KeyName::Z && p.shift)
                || p.key == KeyName::Y)
            &&& asks == Some(Command::Clear) <==> p.key == KeyName::Backspace && p.command
                && p.shift
            &&& asks == Some(Command::ResetView) <==> p.key == KeyName::Num0 && (p.command
                || !p.ctrl)
            &&& asks == Some(Command::Narrower) <==> p.key == KeyName::OpenBracket && plain
            &&& asks == Some(Command::Wider) <==> p.key == KeyName::CloseBracket && plain
            &&& asks == Some(Command::Select(Tool::Pen)) <==> p.key == KeyName::P && plain
            &&& asks == Some(Command::Select(Tool::Line)) <==> p.key == KeyName::L && plain
            &&& asks == Some(Command::Select(Tool::Rect)) <==> p.key == KeyName::R && plain
            &&& asks == Some(Command::Select(Tool::Ellipse)) <==> p.key == KeyName::O && plain
            &&& asks == Some(Command::Select(Tool::Text)) <==> p.key == KeyName::T && plain
            &&& asks == Some(Command::Select(Tool::Eraser)) <==> p.key == KeyName::E && plain
            &&& asks == Some(Command::Select(Tool::Pan)) <==> p.key == KeyName::H && plain
        }),
{
}

/// When a command has its turn in a frame.
pub open spec fn turn(command: Command) -> int {
    match command {
        Command::Undo => 0,
        Command::Redo => 1,
        Command::Clear => 2,
        Command::Select(_) => 3,
        Command::Narrower => 4,
        Command::Wider => 4,
        Command::ResetView => 5,
    }
}

/// Where a tool stands in the toolbar.
pub open spec fn place(tool: Tool) -> int {
    match tool {
        Tool::Pen => 0,
        Tool::Line => 1,
        Tool::Rect => 2,
        Tool::Ellipse => 3,
        Tool::Text => 4,
        Tool::Eraser => 5,
        Tool::Pan => 6,
    }
}

/// Whether commands stand in their turn, all of them before `end`.
spec fn in_turn(commands: Seq<Command>, end: int) -> bool {
    &&& forall|i: int| 0 <= i < commands.len() ==> turn(#[trigger] commands[i]) < end
    &&& forall|i: int, j: int|
        0 <= i < j < commands.len() ==> turn(#[trigger] commands[i]) < turn(
            #[trigger] commands[j],
        )
}

proof fn lemma_next_turn(front: Seq<Command>, next: Seq<Command>, at: int)
    requires
        in_turn(front, at),
        next.len() <= 1,
        next.len() == 1 ==> turn(next[0]) == at,
    ensures
        in_turn(front + next, at + 1),
{
    let all = front + next;
    assert forall|i: int| 0 <= i < all.len() implies turn(#[trigger] all[i]) < at + 1 by {
        if i < front.len() {
            assert(all[i] == front[i]);
        }
    }
    assert forall|i: int, j: int| 0 <= i < j < all.len() implies turn(#[trigger] all[i]) < turn(
        #[trigger] all[j],
    ) by {
        assert(all[i] == front[i]);
        if j < front.len() {
            assert(all[j] == front[j]);
        }
    }
}

/// The commands of a frame are done in turn, none of them twice. While a text
/// field has the keyboard nothing is done.
pub proof fn law_commands_are_done_in_turn(keys: Keys)
    ensures
        keys.owned ==> keys.commands().len() == 0,
        forall|i: int, j: int|
            0 <= i < j < keys.commands().len() ==> turn(#[trigger] keys.commands()[i]) < turn(
                #[trigger] keys.commands()[j],
            ),
{
    let (a, b, c, d, e, f) = parts(keys);
    assert(in_turn(Seq::empty(), 0));
    lemma_next_turn(Seq::empty(), a, 0);
    assert(Seq::<Command>::empty() + a =~= a);
    lemma_next_turn(a, b, 1);
    lemma_next_turn(a + b, c, 2);
    lemma_next_turn(a + b + c, d, 3);
    lemma_next_turn(a + b + c + d, e, 4);
    lemma_next_turn(a + b + c + d + e, f, 5);
}

/// What the keys ask for, turn by turn.
spec fn parts(keys: Keys) -> (
    Seq<Command>,
    Seq<Command>,
    Seq<Command>,
    Seq<Command>,
    Seq<Command>,
    Seq<Command>,
) {
    (
        only_if(keys.ask(Command::Undo), Command::Undo),
        only_if(keys.ask(Command::Redo), Command::Redo),
        only_if(keys.ask(Command::Clear), Command::Clear),
        match keys.tool() {
            Some(tool) => seq![Command::Select(tool)],
            None => Seq::empty(),
        },
        if keys.ask(Command::Wider) {
            seq![Command::Wider]
        } else {
            only_if(keys.ask(Command::Narrower), Command::Narrower)
        },
        only_if(keys.ask(Command::ResetView), Command::ResetView),
    )
}

/// Every command that a key asks for is done: of several tools the last in the
/// toolbar is taken, and to widen wins over to narrow. Nothing is done unasked.
pub proof fn law_what_is_asked_for_is_done(keys: Keys, command: Command)
    requires
        !keys.owned,
    ensures
        ({
            let asked = exists|i: int|
                0 <= i < keys.presses@.len() && (#[trigger] keys.presses@[i]).asks() == Some(
                    command,
                );
            let widened = exists|i: int|
                0 <= i < keys.presses@.len() && (#[trigger] keys.presses@[i]).asks() == Some(
                    Command::Wider,
                );
            match command {
                Command::Narrower => keys.commands().contains(command) <==> asked && !widened,
                Command::Select(tool) => keys.commands().contains(command) <==> asked && forall|
                    i: int,
                |
                    0 <= i < keys.presses@.len() && (#[trigger] keys.presses@[i]).asks() is Some
                        && keys.presses@[i].asks()->0 is Select ==> place(
                        keys.presses@[i].asks()->0->Select_0,
                    ) <= place(tool),
                _ => keys.commands().contains(command) <==> asked,
            }
        }),
{
    let (a, b, c, d, e, f) = parts(keys);
    lemma_among(a, b, c, d, e, f, command);
    lemma_single(a, command);
    lemma_single(b, command);
    lemma_single(c, command);
    lemma_single(d, command);
    lemma_single(e, command);
    lemma_single(f, command);
    if let Command::Select(tool) = command {
        if keys.tool() == Some(tool) {
            assert forall|i: int|
                0 <= i < keys.presses@.len() && (#[trigger] keys.presses@[i]).asks() is Some
                    && keys.presses@[i].asks()->0 is Select implies place(
                keys.presses@[i].asks()->0->Select_0,
            ) <= place(tool) by {
                assert(keys.ask(Command::Select(keys.presses@[i].asks()->0->Select_0)));
            }
        } else if keys.ask(command) {
            let best = keys.tool()->0;
            assert(keys.ask(Command::Select(best)));
            let i = choose|i: int|
                0 <= i < keys.presses@.len() && (#[trigger] keys.presses@[i]).asks() == Some(
                    Command::Select(best),
                );
            assert(keys.presses@[i].asks() == Some(Command::Select(best)));
        }
    }
}

proof fn lemma_single(s: Seq<Command>, x: Command)
    requires
        s.len() <= 1,
    ensures
        s.contains(x) <==> s.len() == 1 && s[0] == x,
{
}

/// What stands in one of six short lists stands in all of them together.
proof fn lemma_among(
    a: Seq<Command>,
    b: Seq<Command>,
    c: Seq<Command>,
    d: Seq<Command>,
    e: Seq<Command>,
    f: Seq<Command>,
    x: Command,
)
    ensures
        (a + b + c + d + e + f).contains(x) <==> a.contains(x) || b.contains(x) || c.contains(x)
            || d.contains(x) || e.contains(x) || f.contains(x),
{
    lemma_either(a, b, x);
    lemma_either(a + b, c, x);
    lemma_either(a + b + c, d, x);
    lemma_either(a + b + c + d, e, x);
    lemma_either(a + b + c + d + e, f, x);
}

proof fn lemma_either(a: Seq<Command>, b: Seq<Command>, x: Command)
    ensures
        (a + b).contains(x) <==> a.contains(x) || b.contains(x),
{
    let all = a + b;
    if a.contains(x) {
        let i = choose|i: int| 0 <= i < a.len() && a[i] == x;
        assert(all[i] == x);
    }
    if b.contains(x) {
        let i = choose|i: int| 0 <= i < b.len() && b[i] == x;
        assert(all[a.len() + i] == x);
    }
    if all.contains(x) {
        let i = choose|i: int| 0 <= i < all.len() && all[i] == x;
        if i < a.len() {
            assert(a[i] == x);
        } else {
            assert(b[i - a.len()] == x);
        }
    }
}

/// The keys shown beside the tools are the keys that choose them.
pub proof fn law_tools_are_labelled(tool: Tool)
    ensures
        tool.key() == (match tool {
            Tool::Pen => "P"@,
            Tool::Line => "L"@,
            Tool::Rect => "R"@,
            Tool::Ellipse => "O"@,
            Tool::Text => "T"@,
            Tool::Eraser => "E"@,
            Tool::Pan => "H"@,
        }),
{
}

/// What the server does where nothing is set.
pub proof fn law_standard_settings()
    ensures
        ({
            let c = ConfigView::standard();
            &&& c.addr == "127.0.0.1:8080"@
            &&& c.data_dir == "data"@
            &&& c.max_peers == 64
            &&& c.flush_interval_ms == 2_000
            &&& c.hello_timeout_ms == 10_000
        }),
{
}

/// Mistakes are told in words.
pub proof fn law_mistakes_are_worded(flag: String)
    ensures
        ConfigError::Addr.words() == "WEAVEDRAW_ADDR is not a socket address"@,
        ConfigError::MaxPeers.words() == "WEAVEDRAW_MAX_PEERS is not a number"@,
        ConfigError::FlushSecs.words() == "WEAVEDRAW_FLUSH_SECS is not a number"@,
        ArgError::ServerNeedsUrl.words() == "--server needs a URL"@,
        ArgError::NameNeedsValue.words() == "--name needs a value"@,
        ArgError::UnknownFlag(flag).words() == "unknown flag "@ + flag@,
{
}

} // verus!
