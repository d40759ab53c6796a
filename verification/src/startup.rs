//! Explaining why the local server could not start: reading which process
//! holds the port from the listings of `netstat` and `tasklist`.

use crate::text::{
    dec_nat, ends_with, ends_with_chars, eq_ignore_ascii_case, eq_ignore_case, is_whitespace, is_ws,
    split, split_chars, starts_with, starts_with_chars, string_of, to_chars, u64_digits, utf8_string,
};
use crate::scanner::opt_view;
use vstd::prelude::*;

verus! {

/// The words of `s`, its maximal runs of non-whitespace, as
/// `split_whitespace` yields them.
pub open spec fn words(s: Seq<char>) -> Seq<Seq<char>>
    decreases s.len(),
{
    if s.len() == 0 {
        Seq::empty()
    } else {
        let rest = words(s.drop_last());
        if is_ws(s.last()) {
            rest
        } else if s.len() >= 2 && !is_ws(s[s.len() - 2]) {
            rest.update(rest.len() - 1, rest.last().push(s.last()))
        } else {
            rest.push(seq![s.last()])
        }
    }
}

pub proof fn lemma_words_end_in_word(s: Seq<char>)
    requires
        s.len() > 0,
        !is_ws(s.last()),
    ensures
        words(s).len() > 0,
    decreases s.len(),
{
    if s.len() >= 2 && !is_ws(s[s.len() - 2]) {
        lemma_words_end_in_word(s.drop_last());
    }
}

/// `split_whitespace`, collected.
pub fn words_of(s: &[char]) -> (r: Vec<Vec<char>>)
    ensures
        crate::text::views(r@) == words(s@),
{
    let mut r: Vec<Vec<char>> = Vec::new();
    let mut cur: Vec<char> = Vec::new();
    let mut in_word = false;
    let mut i: usize = 0;
    assert(s@.take(0) =~= Seq::<char>::empty());
    while i < s.len()
        invariant
            i <= s@.len(),
            in_word == (i > 0 && !is_ws(s@[i - 1])),
            !in_word ==> crate::text::views(r@) == words(s@.take(i as int)),
            in_word ==> crate::text::views(r@).push(cur@) == words(s@.take(i as int)),
        decreases s@.len() - i,
    {
        let ghost before = s@.take(i as int);
        let ghost rv = crate::text::views(r@);
        let c = s[i];
        assert(s@.take(i + 1).drop_last() =~= before);
        assert(s@.take(i + 1).last() == c);
        if is_whitespace(c) {
            if in_word {
                let done = cur;
                r.push(done);
                cur = Vec::new();
                assert(crate::text::views(r@) =~= rv.push(done@));
            }
            in_word = false;
        } else {
            if in_word {
                cur.push(c);
                assert(s@.take(i + 1)[i - 1] == s@[i - 1]);
                proof {
                    lemma_words_end_in_word(before);
                }
                assert(rv.push(cur@) =~= words(before).update(words(before).len() - 1, words(before).last().push(c)));
            } else {
                cur = Vec::new();
                cur.push(c);
                if i > 0 {
                    assert(s@.take(i + 1)[i - 1] == s@[i - 1]);
                }
                assert(cur@ =~= seq![c]);
            }
            in_word = true;
        }
        i = i + 1;
    }
    assert(s@.take(s@.len() as int) =~= s@);
    if in_word {
        let ghost rv = crate::text::views(r@);
        let done = cur;
        r.push(done);
        assert(crate::text::views(r@) =~= rv.push(done@));
    }
    r
}

/// A `netstat -ano` row of a process listening on `port`: at least five
/// columns, the local address ending in `:port`, the state `LISTENING`.
pub open spec fn listening_row(fields: Seq<Seq<char>>, port: u16) -> bool {
    fields.len() >= 5 && ends_with(fields[1], seq![':'] + dec_nat(port as nat)) && eq_ignore_case(
        fields[3],
        "LISTENING"@,
    )
}

/// The process id of the first listening row among `lines`.
pub open spec fn first_listening_pid(lines: Seq<Seq<char>>, port: u16) -> Option<Seq<char>>
    decreases lines.len(),
{
    if lines.len() == 0 {
        None
    } else if listening_row(words(lines[0]), port) {
        Some(words(lines[0])[4])
    } else {
        first_listening_pid(lines.drop_first(), port)
    }
}

/// The process that listens on `port`, from the output of
/// `netstat -ano -p tcp`, when it is UTF-8 text. Rows are the output's
/// lines; a line's carriage return and a final empty line change no row's
/// words.
pub open spec fn spec_listening_pid(netstat: Option<Seq<u8>>, port: u16) -> Option<Seq<char>> {
    match netstat {
        None => None,
        Some(b) => if vstd::utf8::valid_utf8(b) {
            first_listening_pid(split(vstd::utf8::decode_utf8(b), '\n'), port)
        } else {
            None
        },
    }
}

proof fn lemma_first_listening_pid_skip(lines: Seq<Seq<char>>, port: u16, k: int)
    requires
        0 <= k <= lines.len(),
        forall|j: int| 0 <= j < k ==> !listening_row(#[trigger] words(lines[j]), port),
    ensures
        first_listening_pid(lines, port) == first_listening_pid(lines.skip(k), port),
    decreases k,
{
    if k > 0 {
        assert forall|j: int| 0 <= j < k - 1 implies !listening_row(
            #[trigger] words(lines.drop_first()[j]),
            port,
        ) by {
            assert(lines.drop_first()[j] == lines[j + 1]);
        }
        lemma_first_listening_pid_skip(lines.drop_first(), port, k - 1);
        assert(lines.drop_first().skip(k - 1) =~= lines.skip(k));
    } else {
        assert(lines.skip(0) =~= lines);
    }
}

fn port_suffix(port: u16) -> (r: Vec<char>)
    ensures
        r@ == seq![':'] + dec_nat(port as nat),
{
    let mut v: Vec<char> = Vec::new();
    v.push(':');
    v.extend_from_slice(u64_digits(port as u64).as_slice());
    v
}

/// `port_conflict_detail`'s search of the `netstat` listing.
pub fn listening_pid(netstat: Option<Vec<u8>>, port: u16) -> (r: Option<String>)
    ensures
        opt_view(r) == spec_listening_pid(
            match netstat {
                Some(b) => Some(b@),
                None => None,
            },
            port,
        ),
{
    let bytes = match netstat {
        None => return None,
        Some(b) => b,
    };
    let ghost input = bytes@;
    let text = match utf8_string(bytes) {
        None => return None,
        Some(t) => t,
    };
    let lines = split_chars(to_chars(text.as_str()).as_slice(), '\n');
    let ghost ls = split(text@, '\n');
    assert(crate::text::views(lines@) =~= ls);
    assert(spec_listening_pid(Some(input), port) == first_listening_pid(ls, port));
    let suffix = port_suffix(port);
    let listening = to_chars("LISTENING");
    let mut i: usize = 0;
    while i < lines.len()
        invariant
            i <= lines@.len(),
            lines@.len() == ls.len(),
            forall|j: int| 0 <= j < lines@.len() ==> (#[trigger] lines@[j])@ == ls[j],
            suffix@ == seq![':'] + dec_nat(port as nat),
            listening@ == "LISTENING"@,
            spec_listening_pid(Some(input), port) == first_listening_pid(ls, port),
            (match netstat {
                Some(b) => Some(b@),
                None => None,
            }) == Some(input),
            forall|j: int| 0 <= j < i ==> !listening_row(#[trigger] words(ls[j]), port),
        decreases lines@.len() - i,
    {
        let fields = words_of(lines[i].as_slice());
        assert(crate::text::views(fields@) == words(ls[i as int]));
        if fields.len() >= 5 {
            assert(fields@[1]@ == words(ls[i as int])[1]);
            assert(fields@[3]@ == words(ls[i as int])[3]);
            assert(fields@[4]@ == words(ls[i as int])[4]);
            if ends_with_chars(fields[1].as_slice(), suffix.as_slice()) && eq_ignore_ascii_case(
                fields[3].as_slice(),
                listening.as_slice(),
            ) {
                proof {
                    lemma_first_listening_pid_skip(ls, port, i as int);
                    assert(ls.skip(i as int)[0] == ls[i as int]);
                    assert(listening_row(words(ls[i as int]), port));
                    assert(first_listening_pid(ls.skip(i as int), port) == Some(words(ls[i as int])[4]));
                }
                return Some(string_of(fields[4].as_slice()));
            }
        }
        i = i + 1;
    }
    proof {
        lemma_first_listening_pid_skip(ls, port, ls.len() as int);
    }
    None
}

/// `s` without its leading copies of `c`.
pub open spec fn drop_leading(s: Seq<char>, c: char) -> Seq<char>
    decreases s.len(),
{
    if s.len() > 0 && s[0] == c {
        drop_leading(s.drop_first(), c)
    } else {
        s
    }
}

/// `s` without its trailing copies of `c`.
pub open spec fn drop_trailing(s: Seq<char>, c: char) -> Seq<char>
    decreases s.len(),
{
    if s.len() > 0 && s.last() == c {
        drop_trailing(s.drop_last(), c)
    } else {
        s
    }
}

/// The image name that `tasklist /FO CSV /NH` gives for a process: the
/// first field of its answer without quotes, unless the answer is an
/// `INFO:` notice or not UTF-8 text.
pub open spec fn spec_tasklist_image(tasklist: Option<Seq<u8>>) -> Option<Seq<char>> {
    match tasklist {
        None => None,
        Some(b) => if vstd::utf8::valid_utf8(b) {
            let name = drop_trailing(drop_leading(split(vstd::utf8::decode_utf8(b), ',')[0], '"'), '"');
            if starts_with(name, "INFO:"@) {
                None
            } else {
                Some(name)
            }
        } else {
            None
        },
    }
}

fn trim_quotes(s: &[char]) -> (r: Vec<char>)
    ensures
        r@ == drop_trailing(drop_leading(s@, '"'), '"'),
{
    let mut a: usize = 0;
    assert(s@.skip(0) =~= s@);
    while a < s.len() && s[a] == '"'
        invariant
            a <= s@.len(),
            drop_leading(s@, '"') == drop_leading(s@.skip(a as int), '"'),
        decreases s@.len() - a,
    {
        assert(s@.skip(a as int).drop_first() =~= s@.skip(a + 1));
        a = a + 1;
    }
    assert(drop_leading(s@.skip(a as int), '"') == s@.skip(a as int));
    let ghost t = s@.skip(a as int);
    let mut b: usize = s.len();
    while b > a && s[b - 1] == '"'
        invariant
            a <= b <= s@.len(),
            t == s@.skip(a as int),
            drop_trailing(t, '"') == drop_trailing(s@.subrange(a as int, b as int), '"'),
        decreases b,
    {
        assert(s@.subrange(a as int, b as int).drop_last() =~= s@.subrange(a as int, b - 1));
        b = b - 1;
    }
    assert(drop_trailing(s@.subrange(a as int, b as int), '"') == s@.subrange(a as int, b as int));
    let mut r: Vec<char> = Vec::new();
    let mut i: usize = a;
    while i < b
        invariant
            a <= i <= b <= s@.len(),
            r@ == s@.subrange(a as int, i as int),
        decreases b - i,
    {
        r.push(s[i]);
        i = i + 1;
        assert(r@ =~= s@.subrange(a as int, i as int));
    }
    r
}

/// `port_conflict_detail`'s reading of the `tasklist` answer.
pub fn tasklist_image(tasklist: Option<Vec<u8>>) -> (r: Option<String>)
    ensures
        opt_view(r) == spec_tasklist_image(
            match tasklist {
                Some(b) => Some(b@),
                None => None,
            },
        ),
{
    let bytes = match tasklist {
        None => return None,
        Some(b) => b,
    };
    let text = match utf8_string(bytes) {
        None => return None,
        Some(t) => t,
    };
    let pieces = split_chars(to_chars(text.as_str()).as_slice(), ',');
    proof {
        crate::text::lemma_split_nonempty(text@, ',');
    }
    let name = trim_quotes(pieces[0].as_slice());
    if starts_with_chars(name.as_slice(), to_chars("INFO:").as_slice()) {
        None
    } else {
        Some(string_of(name.as_slice()))
    }
}

/// The `tasklist` filter that selects process `pid`.
pub fn tasklist_filter(pid: &str) -> (r: String)
    ensures
        r@ == "PID eq "@ + pid@,
{
    let mut v = to_chars("PID eq ");
    v.extend_from_slice(to_chars(pid).as_slice());
    string_of(v.as_slice())
}

pub open spec fn spec_port_conflict_detail(port: u16, pid: Option<Seq<char>>, app: Option<Seq<char>>) -> Seq<char> {
    match pid {
        Some(p) => match app {
            Some(a) => "Port "@ + dec_nat(port as nat) + " is currently used by "@ + a + " (PID "@ + p
                + ")."@,
            None => "Port "@ + dec_nat(port as nat) + " is currently used by PID "@ + p + "."@,
        },
        None => "Port "@ + dec_nat(port as nat) + " is already in use by another application."@,
    }
}

/// `port_conflict_detail`: what holds the server's port, as far as it is
/// known: the process id that listens on it and that process's image.
/// Where neither can be found, as on systems other than Windows, the port
/// is said to be in use by another application.
pub fn port_conflict_detail(port: u16, pid: Option<&str>, app: Option<&str>) -> (r: String)
    ensures
        r@ == spec_port_conflict_detail(
            port,
            match pid {
                Some(p) => Some(p@),
                None => None,
            },
            match app {
                Some(a) => Some(a@),
                None => None,
            },
        ),
{
    let mut v = to_chars("Port ");
    v.extend_from_slice(u64_digits(port as u64).as_slice());
    match pid {
        Some(p) => match app {
            Some(a) => {
                v.extend_from_slice(to_chars(" is currently used by ").as_slice());
                v.extend_from_slice(to_chars(a).as_slice());
                v.extend_from_slice(to_chars(" (PID ").as_slice());
                v.extend_from_slice(to_chars(p).as_slice());
                v.extend_from_slice(to_chars(").").as_slice());
            },
            None => {
                v.extend_from_slice(to_chars(" is currently used by PID ").as_slice());
                v.extend_from_slice(to_chars(p).as_slice());
                v.extend_from_slice(to_chars(".").as_slice());
            },
        },
        None => {
            v.extend_from_slice(to_chars(" is already in use by another application.").as_slice());
        },
    }
    string_of(v.as_slice())
}

/// What the desktop says when its server cannot bind its port: the port,
/// what holds it, what to do, and the system's own words.
pub open spec fn spec_start_failure(port: u16, detail: Seq<char>, error: Seq<char>) -> Seq<char> {
    "sTori could not start its local server on port "@ + dec_nat(port as nat) + ".\n\n"@ + detail
        + "\n\nClose the conflicting application, then reopen sTori.\n\nTechnical detail: "@ + error
}

/// The message shown when the server cannot start on its port.
pub fn start_failure_message(port: u16, detail: &str, error: &str) -> (r: String)
    ensures
        r@ == spec_start_failure(port, detail@, error@),
{
    let mut v = to_chars("sTori could not start its local server on port ");
    v.extend_from_slice(u64_digits(port as u64).as_slice());
    v.extend_from_slice(to_chars(".\n\n").as_slice());
    v.extend_from_slice(to_chars(detail).as_slice());
    v.extend_from_slice(to_chars("\n\nClose the conflicting application, then reopen sTori.\n\nTechnical detail: ").as_slice());
    v.extend_from_slice(to_chars(error).as_slice());
    string_of(v.as_slice())
}

} // verus!
