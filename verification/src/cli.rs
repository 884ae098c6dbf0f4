//! The command surface the terminal offers, and the parsing of one input
//! line into a command.

use vstd::prelude::*;

use crate::codec::is_ws;
use crate::text::push_char;

verus! {

/// One invocation of the tool.
pub struct Cli {
    pub command: Commands,
}

/// The commands the terminal accepts.
pub enum Commands {
    /// Lists all users.
    List,
    /// Sends a message to a user.
    Send {
        /// Identity or alias of the user.
        identifier: String,
        /// Message to send to the user.
        message: String,
    },
    /// Updates a user's alias.
    Update {
        /// Identity of the user.
        uuid: String,
        /// New alias for the user.
        alias: String,
    },
}

/// The whitespace-separated words of a line, collected left to right.
pub open spec fn split_words(s: Seq<char>, i: int, cur: Seq<char>, acc: Seq<Seq<char>>) -> Seq<
    Seq<char>,
>
    decreases s.len() - i,
{
    if i >= s.len() {
        if cur.len() > 0 {
            acc.push(cur)
        } else {
            acc
        }
    } else if is_ws(s[i]) {
        if cur.len() > 0 {
            split_words(s, i + 1, Seq::empty(), acc.push(cur))
        } else {
            split_words(s, i + 1, Seq::empty(), acc)
        }
    } else {
        split_words(s, i + 1, cur.push(s[i]), acc)
    }
}

/// The whitespace-separated words of a line.
pub open spec fn words_of(s: Seq<char>) -> Seq<Seq<char>> {
    split_words(s, 0, Seq::empty(), Seq::empty())
}

/// Split a line into its whitespace-separated words.
pub fn tokenize(line: &str) -> (r: Vec<String>)
    ensures
        r@.map_values(|t: String| t@) == words_of(line@),
{
    let s = crate::text::str_chars(line);
    let n = s.len();
    let mut acc: Vec<String> = Vec::new();
    let mut cur = String::new();
    let mut i: usize = 0;
    proof {
        assert(acc@.map_values(|t: String| t@) =~= Seq::<Seq<char>>::empty());
    }
    while i < n
        invariant
            i <= n,
            n == s@.len(),
            s@ == line@,
            words_of(line@) == split_words(
                s@,
                i as int,
                cur@,
                acc@.map_values(|t: String| t@),
            ),
        decreases n - i,
    {
        let c = s[i];
        let ghost cur0 = cur@;
        let ghost accv0 = acc@.map_values(|t: String| t@);
        if c == ' ' || c == '\t' || c == '\n' || c == '\r' {
            if cur.as_str().unicode_len() > 0 {
                proof {
                    assert(cur@.len() > 0);
                    assert(acc@.push(cur).map_values(|t: String| t@) =~= acc@.map_values(
                        |t: String| t@,
                    ).push(cur@));
                }
                acc.push(cur);
                cur = String::new();
                proof {
                    assert(acc@.map_values(|t: String| t@) =~= accv0.push(cur0));
                    assert(split_words(s@, i as int, cur0, accv0) == split_words(
                        s@,
                        i as int + 1,
                        Seq::empty(),
                        accv0.push(cur0),
                    ));
                    assert(cur@ =~= Seq::<char>::empty());
                }
            } else {
                proof {
                    assert(cur0 =~= Seq::<char>::empty());
                    assert(split_words(s@, i as int, cur0, accv0) == split_words(
                        s@,
                        i as int + 1,
                        Seq::empty(),
                        accv0,
                    ));
                }
            }
        } else {
            push_char(&mut cur, c);
            proof {
                assert(!is_ws(s@[i as int]));
                assert(split_words(s@, i as int, cur0, accv0) == split_words(
                    s@,
                    i as int + 1,
                    cur0.push(s@[i as int]),
                    accv0,
                ));
                assert(cur@ == cur0.push(s@[i as int]));
            }
        }
        i += 1;
    }
    if cur.as_str().unicode_len() > 0 {
        proof {
            assert(cur@.len() > 0);
            assert(acc@.push(cur).map_values(|t: String| t@) =~= acc@.map_values(
                |t: String| t@,
            ).push(cur@));
        }
        acc.push(cur);
    }
    acc
}

/// Parse one input line: `list_users` lists the registry, `send_message`
/// takes a target and a text, `update_alias` an identity and a label.
/// Anything else — an empty line included — is no command.
pub fn parse_command(line: &str) -> (r: Option<Commands>)
    ensures
        ({
            let ws = words_of(line@);
            match r {
                Some(cmd) => match cmd {
                    Commands::List => ws.len() >= 1 && ws[0] == "list_users"@,
                    Commands::Send { identifier, message } => ws.len() > 2 && ws[0]
                        == "send_message"@ && identifier@ == ws[1] && message@ == ws[2],
                    Commands::Update { uuid, alias } => ws.len() > 2 && ws[0] == "update_alias"@
                        && uuid@ == ws[1] && alias@ == ws[2],
                },
                None => !(ws.len() >= 1 && ws[0] == "list_users"@) && !(ws.len() > 2 && (ws[0]
                    == "send_message"@ || ws[0] == "update_alias"@)),
            }
        }),
{
    let words = tokenize(line);
    proof {
        assert(forall|i: int|
            0 <= i < words@.len() ==> words@.map_values(|t: String| t@)[i] == #[trigger] words@[i]@);
    }
    if words.len() >= 1 && words[0] == String::from_str("list_users") {
        return Some(Commands::List);
    }
    if words.len() > 2 && words[0] == String::from_str("send_message") {
        return Some(
            Commands::Send { identifier: words[1].clone(), message: words[2].clone() },
        );
    }
    if words.len() > 2 && words[0] == String::from_str("update_alias") {
        return Some(Commands::Update { uuid: words[1].clone(), alias: words[2].clone() });
    }
    None
}

} // verus!
