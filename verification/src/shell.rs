//! The shell dialect table, and the ways a variable's command can fail
//! to give a value — each worded as a refusal that names the variable.
//!
//! Running the command (spawning it, draining its pipes, bounding the
//! wait) is the program's business; what the run's bytes and status
//! mean is decided here.
use vstd::prelude::*;
use vstd::string::*;

use crate::duration::{brief_duration, brief_text};
use crate::registry::{empty_shell_text, EmptyShellName, ShellMode};
use crate::template::MissingVariable;
use crate::text::{
    ascii_lower, chars_eq, chars_of, debug_quote, debug_str, decimal, decimal_string, exec_ascii_lower, exec_is_ws,
    is_ws, push_char, signed_decimal, signed_decimal_string, string_of, trim, index_of_from, find_char_from,
    trim_chars, chars_range, joined, join_strings,
};

verus! {

broadcast use vstd::string::group_string_axioms;

/// A list of words as their texts.
pub open spec fn words(v: Seq<String>) -> Seq<Seq<char>> {
    v.map_values(|w: String| w@)
}

/// The program `ShellMode::Platform` runs: `sh`.
pub fn platform_shell() -> (s: String)
    ensures
        s@ == "sh"@,
{
    String::from_str("sh")
}

/// The platform shell's "run this string" flag: `-c`. Fixed, never
/// read from the dialect table.
pub fn platform_flags() -> (f: Vec<String>)
    ensures
        words(f@) == seq!["-c"@],
{
    let f = vec![String::from_str("-c")];
    assert(words(f@) =~= seq!["-c"@]);
    f
}

/// A path every platform reads as one plain file name: not empty, not
/// `.` or `..`, and free of `/`, `\` and `:`.
pub open spec fn plain_name(path: Seq<char>) -> bool {
    &&& path.len() > 0
    &&& path != "."@
    &&& path != ".."@
    &&& forall|i: int| 0 <= i < path.len() ==> #[trigger] path[i] != '/' && path[i] != '\\' && path[i] != ':'
}

/// The position of the last `/` among the first `n` chars, if any.
pub open spec fn last_slash(p: Seq<char>, n: int) -> Option<int>
    decreases n,
{
    if n <= 0 {
        None
    } else if p[n - 1] == '/' {
        Some(n - 1)
    } else {
        last_slash(p, n - 1)
    }
}

/// A `/`-separated path every platform splits the same way: no `\`,
/// no `:`, not opening with `//`, and ending in a plain name after its
/// last `/`. That name is its file name.
pub open spec fn slash_path_name(path: Seq<char>) -> Option<Seq<char>> {
    match last_slash(path, path.len() as int) {
        Some(i) => {
            let name = path.subrange(i + 1, path.len() as int);
            if plain_name(name) && (forall|j: int| 0 <= j < path.len() ==> #[trigger] path[j] != '\\' && path[j] != ':')
                && !(path.len() >= 2 && path[0] == '/' && path[1] == '/') {
                Some(name)
            } else {
                None
            }
        },
        None => None,
    }
}

/// `std::path::Path::file_name`, read as text (a `&str` path's name is
/// always valid UTF-8, so the lossy read is exact). Where a path's
/// components end depends on the platform's path syntax (`C:\bin\cmd.exe`
/// is one name on Unix), so only what every platform agrees on is
/// stated: a plain name is its own file name, and a `/`-separated
/// path of plain components ends in its file name.
#[verifier::external_body]
fn file_name_of(program: &str) -> (r: Option<String>)
    ensures
        plain_name(program@) ==> r is Some && r->Some_0@ == program@,
        slash_path_name(program@) matches Some(n) ==> r is Some && r->Some_0@ == n,
{
    std::path::Path::new(program).file_name().map(|n| n.to_string_lossy().into_owned())
}

/// A dialect key from a program's file name: ASCII-lowercased, with one
/// trailing `.exe` removed; no name gives the empty key.
pub open spec fn dialect_key(file_name: Option<Seq<char>>) -> Seq<char> {
    let name = match file_name {
        Some(n) => n.map_values(|c: char| ascii_lower(c)),
        None => Seq::empty(),
    };
    if name.len() >= 4 && name.subrange(name.len() - 4, name.len() as int) == ".exe"@ {
        name.subrange(0, name.len() - 4)
    } else {
        name
    }
}

/// The dialect key of a file name, as `Path::file_name` gave it.
pub fn key_of_file_name(file_name: Option<&str>) -> (r: String)
    ensures
        r@ == dialect_key(crate::kdl_doc::opt_text(file_name)),
{
    let name: Vec<char> = match file_name {
        Some(n) => {
            let cs = chars_of(n);
            let mut lowered: Vec<char> = Vec::new();
            let mut i: usize = 0;
            while i < cs.len()
                invariant
                    i <= cs@.len(),
                    lowered@ == cs@.take(i as int).map_values(|c: char| ascii_lower(c)),
                decreases cs@.len() - i,
            {
                lowered.push(exec_ascii_lower(cs[i]));
                i = i + 1;
                assert(lowered@ =~= cs@.take(i as int).map_values(|c: char| ascii_lower(c)));
            }
            assert(cs@.take(cs@.len() as int) =~= cs@);
            lowered
        },
        None => Vec::new(),
    };
    proof { reveal_strlit(".exe"); }
    let n = name.len();
    if n >= 4 && name[n - 4] == '.' && name[n - 3] == 'e' && name[n - 2] == 'x' && name[n - 1] == 'e' {
        assert(name@.subrange(n - 4, n as int) =~= ".exe"@);
        let mut kept: Vec<char> = Vec::new();
        let mut i: usize = 0;
        while i < n - 4
            invariant
                i <= n - 4,
                n == name@.len(),
                kept@ == name@.take(i as int),
            decreases n - 4 - i,
        {
            kept.push(name[i]);
            i = i + 1;
            assert(kept@ =~= name@.take(i as int));
        }
        assert(kept@ =~= name@.subrange(0, n - 4));
        string_of(kept.as_slice())
    } else {
        proof {
            if n >= 4 {
                assert(name@.subrange(n - 4, n as int) != ".exe"@) by {
                    if name@.subrange(n - 4, n as int) == ".exe"@ {
                        assert(name@.subrange(n - 4, n as int)[0] == name@[n - 4]);
                        assert(name@.subrange(n - 4, n as int)[1] == name@[n - 3]);
                        assert(name@.subrange(n - 4, n as int)[2] == name@[n - 2]);
                        assert(name@.subrange(n - 4, n as int)[3] == name@[n - 1]);
                    }
                }
            }
        }
        string_of(name.as_slice())
    }
}

/// A program's dialect key: the file name, `.exe` stripped, lowercased.
/// The flag table and the interpreter tables agree on what a program is
/// CALLED, so a full path and a bare name land on the same row; only
/// `.exe` is stripped, so a wrapper script `cmd.sh` keeps its own row.
/// The key is that of the file name the platform's path syntax gives;
/// a plain name is its own.
pub fn interpreter_name(program: &str) -> (r: String)
    ensures
        exists|n: Option<Seq<char>>| r@ == dialect_key(n),
        plain_name(program@) ==> r@ == dialect_key(Some(program@)),
        slash_path_name(program@) matches Some(n) ==> r@ == dialect_key(Some(n)),
{
    let n = file_name_of(program);
    match &n {
        Some(s) => key_of_file_name(Some(s.as_str())),
        None => key_of_file_name(None),
    }
}

/// The flags a shell with dialect key `key` takes for "run this string".
pub open spec fn key_flags_spec(key: Seq<char>) -> Seq<Seq<char>> {
    if key == "cmd"@ {
        seq!["/C"@]
    } else if key == "powershell"@ || key == "pwsh"@ {
        seq!["-NoProfile"@, "-Command"@]
    } else {
        seq!["-c"@]
    }
}

/// The flags for a dialect key: `cmd` takes `/C`, PowerShell
/// `-NoProfile -Command`, and everything else `-c`.
pub fn key_flags(key: &str) -> (f: Vec<String>)
    ensures
        words(f@) == key_flags_spec(key@),
{
    let cs = chars_of(key);
    if chars_eq(cs.as_slice(), "cmd") {
        let f = vec![String::from_str("/C")];
        assert(words(f@) =~= seq!["/C"@]);
        f
    } else if chars_eq(cs.as_slice(), "powershell") || chars_eq(cs.as_slice(), "pwsh") {
        let f = vec![String::from_str("-NoProfile"), String::from_str("-Command")];
        assert(words(f@) =~= seq!["-NoProfile"@, "-Command"@]);
        f
    } else {
        let f = vec![String::from_str("-c")];
        assert(words(f@) =~= seq!["-c"@]);
        f
    }
}

/// The shell's own flag(s) for "run this string", by the program's
/// dialect key. An unknown name is no error: `-c` is what a program
/// handed a script takes, and a wrong guess surfaces as the child's own
/// diagnostic.
pub fn command_flags(program: &str) -> (f: Vec<String>)
    ensures
        exists|n: Option<Seq<char>>| words(f@) == key_flags_spec(dialect_key(n)),
        plain_name(program@) ==> words(f@) == key_flags_spec(dialect_key(Some(program@))),
        slash_path_name(program@) matches Some(n) ==> words(f@) == key_flags_spec(dialect_key(Some(n))),
{
    let name = interpreter_name(program);
    key_flags(name.as_str())
}

/// The program and flags a mode spawns, or `None` when there is no
/// shell. `Platform` never consults the dialect table.
pub fn shell_invocation(mode: &ShellMode) -> (r: Option<(String, Vec<String>)>)
    ensures
        match mode {
            ShellMode::Direct => r is None,
            ShellMode::Platform => r is Some && r->Some_0.0@ == "sh"@ && words(r->Some_0.1@) == seq!["-c"@],
            ShellMode::Named(name) => r is Some && r->Some_0.0@ == name@ && (exists|n: Option<Seq<char>>| words(
                r->Some_0.1@) == key_flags_spec(dialect_key(n))) && (plain_name(name@) ==> words(r->Some_0.1@)
                == key_flags_spec(dialect_key(Some(name@)))) && (slash_path_name(name@) matches Some(n) ==> words(
                r->Some_0.1@) == key_flags_spec(dialect_key(Some(n)))),
        },
{
    match mode {
        ShellMode::Direct => None,
        ShellMode::Platform => Some((platform_shell(), platform_flags())),
        ShellMode::Named(name) => Some((name.clone(), command_flags(name.as_str()))),
    }
}

} // verus!

verus! {

/// The value's byte ceiling: 64 KiB. Past it the failure is loud, never
/// a silently dropped value.
pub const VALUE_CAP: usize = 64 * 1024;

/// How many lines of the command's stderr a refusal echoes.
pub const STDERR_ECHO_LINES: usize = 5;

/// Every way a derivation can fail.
pub enum DerivationFailure {
    /// A reference the values could not fill.
    Expansion(MissingVariable),
    /// A `shell="{{d}}"` dialect name that expanded to nothing.
    EmptyShell(EmptyShellName),
    /// The SHELL failed to start: `program` is the shell, not the
    /// command, and `reason` is the system's account of why.
    Spawn { program: String, reason: String },
    /// The command ran and failed. `None` means signalled.
    Exit { code: Option<i32>, stderr: String },
    /// stdout overflowed the byte ceiling.
    Truncated { cap: usize },
    /// The command printed nothing (or only whitespace).
    Empty,
    /// The bounded wait gave up, after this many whole milliseconds.
    Timeout(u128),
}

/// A missing reference, as a sentence shows it.
pub open spec fn missing_text(name: Seq<char>) -> Seq<char> {
    "`{{"@ + name + "}}`"@
}

fn missing_message(missing: &MissingVariable) -> (m: String)
    ensures
        m@ == missing_text(missing.name@),
{
    let mut m = String::from_str("`{{");
    m.append(missing.name.as_str());
    m.append("}}`");
    m
}

/// The short account of a failure.
pub open spec fn failure_text(f: DerivationFailure) -> Seq<char> {
    match f {
        DerivationFailure::Expansion(missing) => missing_text(missing.name@),
        DerivationFailure::EmptyShell(empty) => empty_shell_text(empty.declared@),
        DerivationFailure::Spawn { program, reason } => "could not start `"@ + program@ + "`: "@ + reason@,
        DerivationFailure::Exit { code, stderr } => match code {
            Some(c) => "the command exited with status "@ + signed_decimal(c as int) + ": "@ + stderr@,
            None => "the command was killed by a signal: "@ + stderr@,
        },
        DerivationFailure::Truncated { cap } => "the command printed more than "@ + decimal(cap as nat) + " bytes"@,
        DerivationFailure::Empty => "the command printed nothing"@,
        DerivationFailure::Timeout(ms) => "the command did not finish within "@ + brief_text(ms as nat),
    }
}

impl DerivationFailure {
    /// The short account of what went wrong; `refusal` is the full
    /// teaching sentence.
    pub fn message(&self) -> (m: String)
        ensures
            m@ == failure_text(*self),
    {
        match self {
            DerivationFailure::Expansion(missing) => missing_message(missing),
            DerivationFailure::EmptyShell(empty) => empty.message(),
            DerivationFailure::Spawn { program, reason } => {
                let mut m = String::from_str("could not start `");
                m.append(program.as_str());
                m.append("`: ");
                m.append(reason.as_str());
                m
            },
            DerivationFailure::Exit { code, stderr } => match code {
                Some(c) => {
                    let mut m = String::from_str("the command exited with status ");
                    let n = signed_decimal_string(*c);
                    m.append(n.as_str());
                    m.append(": ");
                    m.append(stderr.as_str());
                    m
                },
                None => {
                    let mut m = String::from_str("the command was killed by a signal: ");
                    m.append(stderr.as_str());
                    m
                },
            },
            DerivationFailure::Truncated { cap } => {
                let mut m = String::from_str("the command printed more than ");
                let n = decimal_string(*cap as u64);
                m.append(n.as_str());
                m.append(" bytes");
                m
            },
            DerivationFailure::Empty => String::from_str("the command printed nothing"),
            DerivationFailure::Timeout(ms) => {
                let mut m = String::from_str("the command did not finish within ");
                let b = brief_duration(*ms);
                m.append(b.as_str());
                m
            },
        }
    }
}

/// The value with its trailing run of line terminators removed — a
/// `\r\n` is one terminator. Nothing else is touched.
pub open spec fn trim_value_spec(s: Seq<char>) -> Seq<char>
    decreases s.len(),
{
    if s.len() > 0 && s.last() == '\n' {
        let t = s.drop_last();
        if t.len() > 0 && t.last() == '\r' { trim_value_spec(t.drop_last()) } else { trim_value_spec(t) }
    } else {
        s
    }
}

/// Strip the trailing run of newlines, removing one `\r` before each.
/// Leading and trailing spaces and every interior byte survive.
pub fn trim_value(raw: &str) -> (r: String)
    ensures
        r@ == trim_value_spec(raw@),
{
    let cs = chars_of(raw);
    let mut end: usize = cs.len();
    assert(cs@ =~= cs@.take(cs@.len() as int));
    while end > 0 && cs[end - 1] == '\n'
        invariant
            end <= cs@.len(),
            trim_value_spec(cs@) == trim_value_spec(cs@.take(end as int)),
        decreases end,
    {
        let ghost t = cs@.take(end as int);
        assert(t.drop_last() =~= cs@.take(end - 1));
        end = end - 1;
        if end > 0 && cs[end - 1] == '\r' {
            assert(cs@.take(end as int).drop_last() =~= cs@.take(end - 1));
            end = end - 1;
        }
    }
    assert(cs@ =~= cs@.take(cs@.len() as int));
    let kept = chars_range(cs.as_slice(), 0, end);
    assert(kept@ =~= cs@.take(end as int));
    string_of(kept.as_slice())
}

/// What `String::from_utf8_lossy` reads from `bytes`.
pub uninterp spec fn utf8_lossy(bytes: Seq<u8>) -> Seq<char>;

/// `String::from_utf8_lossy`: the bytes as text, each invalid sequence
/// read as U+FFFD.
#[verifier::external_body]
fn lossy_text(bytes: &[u8]) -> (s: String)
    ensures
        s@ == utf8_lossy(bytes@),
{
    String::from_utf8_lossy(bytes).into_owned()
}

/// What a successful exit's stdout gives: overflow first (an over-long
/// value whose bytes were dropped must not read as "printed nothing"),
/// then emptiness, then the value with its terminator trimmed.
pub open spec fn classified_value(stdout: Seq<u8>, truncated: bool) -> Result<Seq<char>, DerivationFailure> {
    if truncated {
        Err(DerivationFailure::Truncated { cap: VALUE_CAP })
    } else if trim(trim_value_spec(utf8_lossy(stdout))).len() == 0 {
        Err(DerivationFailure::Empty)
    } else {
        Ok(trim_value_spec(utf8_lossy(stdout)))
    }
}

/// Classify a successful exit's stdout into a value.
pub fn classify_value(stdout: Vec<u8>, truncated: bool) -> (r: Result<String, DerivationFailure>)
    ensures
        match classified_value(stdout@, truncated) {
            Ok(v) => r is Ok && r->Ok_0@ == v,
            Err(DerivationFailure::Truncated { cap }) => r matches Err(DerivationFailure::Truncated { cap: c }) && c == cap,
            Err(_) => r matches Err(DerivationFailure::Empty),
        },
{
    if truncated {
        return Err(DerivationFailure::Truncated { cap: VALUE_CAP });
    }
    let raw = lossy_text(stdout.as_slice());
    let value = trim_value(raw.as_str());
    let vs = chars_of(value.as_str());
    let trimmed = trim_chars(vs.as_slice());
    if trimmed.len() == 0 {
        return Err(DerivationFailure::Empty);
    }
    Ok(value)
}

/// Keep one chunk of a pipe's bytes under a byte ceiling: past the
/// ceiling everything kept is dropped and the overflow flag is raised,
/// so what is kept is either every byte or none — never a prefix a
/// caller could mistake for the whole value.
pub fn retain_chunk(out: &mut Vec<u8>, truncated: &mut bool, chunk: &[u8], cap: usize)
    ensures
        *old(truncated) ==> *final(truncated) && final(out)@ == old(out)@,
        !*old(truncated) && old(out)@.len() + chunk@.len() > cap ==> *final(truncated) && final(out)@.len() == 0,
        !*old(truncated) && old(out)@.len() + chunk@.len() <= cap ==> !*final(truncated) && final(out)@ == old(out)@
            + chunk@,
{
    if !*truncated && out.len() as u128 + chunk.len() as u128 > cap as u128 {
        *truncated = true;
        out.clear();
    }
    if !*truncated {
        let mut i: usize = 0;
        let ghost before = out@;
        while i < chunk.len()
            invariant
                i <= chunk@.len(),
                out@ == before + chunk@.take(i as int),
            decreases chunk@.len() - i,
        {
            out.push(chunk[i]);
            i = i + 1;
            assert(out@ =~= before + chunk@.take(i as int));
        }
        assert(chunk@.take(chunk@.len() as int) =~= chunk@);
    }
}

} // verus!

verus! {

pub proof fn lemma_index_of_from_bounds(s: Seq<char>, c: char, i: int)
    requires
        0 <= i <= s.len(),
    ensures
        i <= index_of_from(s, c, i) <= s.len(),
    decreases s.len() - i,
{
    if i < s.len() && s[i] != c {
        lemma_index_of_from_bounds(s, c, i + 1);
    }
}

/// The line of `s` that starts at `i`, as `str::lines` yields it: up to
/// the next `\n`, less one `\r` right before that `\n`.
pub open spec fn line_at(s: Seq<char>, i: int) -> Seq<char> {
    let j = index_of_from(s, '\n', i);
    let raw = s.subrange(i, j);
    if j < s.len() && raw.len() > 0 && raw.last() == '\r' { raw.drop_last() } else { raw }
}

/// Every line of `s` from `i` on, each on a fresh line indented four
/// spaces.
pub open spec fn indented_from(s: Seq<char>, i: int) -> Seq<char>
    decreases s.len() + 1 - i,
{
    if i < 0 || i >= s.len() {
        Seq::empty()
    } else {
        proof {
            lemma_index_of_from_bounds(s, '\n', i);
        }
        "\n    "@ + line_at(s, i) + indented_from(s, index_of_from(s, '\n', i) + 1)
    }
}

/// The command's stderr as an indented block beneath the sentence, or
/// nothing when it printed none.
pub open spec fn echo_text(stderr: Seq<char>) -> Seq<char> {
    if trim(stderr).len() == 0 {
        Seq::empty()
    } else {
        "\n  the command's own diagnostic:"@ + indented_from(stderr, 0)
    }
}

/// The child's stderr as an indented block beneath the sentence, or
/// nothing when it printed none.
pub fn echo(stderr: &str) -> (r: String)
    ensures
        r@ == echo_text(stderr@),
{
    let cs = chars_of(stderr);
    let t = trim_chars(cs.as_slice());
    if t.len() == 0 {
        return String::new();
    }
    let mut out = String::from_str("\n  the command's own diagnostic:");
    let ghost head = out@;
    let mut i: usize = 0;
    while i < cs.len()
        invariant
            i <= cs@.len(),
            cs@ == stderr@,
            head == "\n  the command's own diagnostic:"@,
            out@ + indented_from(cs@, i as int) == head + indented_from(cs@, 0),
        decreases cs@.len() - i,
    {
        let j = find_char_from(cs.as_slice(), '\n', i);
        let mut k = j;
        if j < cs.len() && k > i && cs[k - 1] == '\r' {
            k = k - 1;
        }
        let line = chars_range(cs.as_slice(), i, k);
        proof {
            lemma_index_of_from_bounds(cs@, '\n', i as int);
            let raw = cs@.subrange(i as int, j as int);
            if j < cs@.len() && raw.len() > 0 && raw.last() == '\r' {
                assert(raw.drop_last() =~= cs@.subrange(i as int, k as int));
            } else {
                assert(raw =~= cs@.subrange(i as int, k as int));
            }
            assert(line@ == line_at(cs@, i as int));
        }
        let ghost before = out@;
        out.append("\n    ");
        let ls = string_of(line.as_slice());
        out.append(ls.as_str());
        proof {
            assert(indented_from(cs@, i as int) == "\n    "@ + line_at(cs@, i as int) + indented_from(cs@, j + 1));
            assert(out@ + indented_from(cs@, j + 1) =~= before + indented_from(cs@, i as int));
        }
        if j < cs.len() {
            i = j + 1;
        } else {
            i = cs.len();
        }
    }
    assert(indented_from(cs@, cs@.len() as int) =~= Seq::<char>::empty());
    assert(out@ =~= out@ + Seq::<char>::empty());
    out
}

} // verus!

verus! {

/// How a variable's errors name it: first, because a block may hold a
/// dozen and "the command exited 128" alone does not say which line to
/// edit.
pub open spec fn at_variable_text(name: Seq<char>) -> Seq<char> {
    "variable "@ + debug_str(name)
}

pub fn at_variable(name: &str) -> (r: String)
    ensures
        r@ == at_variable_text(name@),
{
    let mut r = String::from_str("variable ");
    let q = debug_quote(name);
    r.append(q.as_str());
    r
}

/// The one fallback spelling every message teaches.
pub open spec fn fallback_text() -> Seq<char> {
    "write the fallback where the shell already has the operator: `… 2>/dev/null || echo -`"@
}

fn append_fallback(m: &mut String)
    ensures
        final(m)@ == old(m)@ + fallback_text(),
{
    m.append("write the fallback where the shell already has the operator: `… 2>/dev/null || echo -`");
}

/// A derivation failure as a teaching load error: the variable first,
/// what happened, why it matters, and the fix spelled out.
pub open spec fn refusal_text(name: Seq<char>, command: Seq<char>, f: DerivationFailure) -> Seq<char> {
    let at = at_variable_text(name);
    match f {
        DerivationFailure::Expansion(missing) => at + ": the command references "@ + missing_text(missing.name@)
            + " — declare it in the `variables` block"@,
        DerivationFailure::EmptyShell(empty) => at + ": `shell` names nothing — the dialect (written as "@ + debug_str(
            empty.declared@,
        ) + ") came back empty; name the program, or use `shell=#true` for the platform's shell"@,
        DerivationFailure::Spawn { program, reason } => at + ": could not start `"@ + program@ + "` ("@ + reason@
            + ") — that is the shell the command runs through, not the command itself; name a shell that exists, or use `shell=#true` for the platform's shell"@,
        DerivationFailure::Exit { code, stderr } => at + ": the command exited "@ + match code {
            Some(c) => signed_decimal(c as int),
            None => "on a signal"@,
        } + " — a command variable's output IS its value, so a failure has no value to give: `"@ + command
            + "`. If a fallback is meant, "@ + fallback_text() + echo_text(stderr@),
        DerivationFailure::Truncated { cap } => at + ": the command printed more than "@ + decimal(cap as nat)
            + " bytes — a value is a path or a token, not a listing; narrow the command (`… | head -1`): `"@ + command
            + "`"@,
        DerivationFailure::Empty => at
            + ": the command printed nothing — a silently empty value would expand into a plausible-looking wrong path that fails much later, which is worse than not starting: `"@
            + command + "`. If empty is meaningful here, "@ + fallback_text(),
        DerivationFailure::Timeout(ms) => at + ": the command was still running after "@ + brief_text(ms as nat)
            + " — a once-at-load variable runs before the first frame, so a hanging command hangs startup with no UI to explain it: `"@
            + command + "`. Bound the command itself (`timeout 2 …`), or derive the value another way"@,
    }
}

/// Every way a derivation can fail, as a teaching load error in the
/// house shape. A deferred failure at spawn shows the same words.
pub fn refusal(name: &str, command: &str, failure: &DerivationFailure) -> (r: String)
    ensures
        r@ == refusal_text(name@, command@, *failure),
{
    let mut r = at_variable(name);
    match failure {
        DerivationFailure::Expansion(missing) => {
            r.append(": the command references ");
            let m = missing_message(missing);
            r.append(m.as_str());
            r.append(" — declare it in the `variables` block");
        },
        DerivationFailure::EmptyShell(empty) => {
            r.append(": `shell` names nothing — the dialect (written as ");
            let q = debug_quote(empty.declared.as_str());
            r.append(q.as_str());
            r.append(") came back empty; name the program, or use `shell=#true` for the platform's shell");
        },
        DerivationFailure::Spawn { program, reason } => {
            r.append(": could not start `");
            r.append(program.as_str());
            r.append("` (");
            r.append(reason.as_str());
            r.append(
                ") — that is the shell the command runs through, not the command itself; name a shell that exists, or use `shell=#true` for the platform's shell",
            );
        },
        DerivationFailure::Exit { code, stderr } => {
            r.append(": the command exited ");
            match code {
                Some(c) => {
                    let n = signed_decimal_string(*c);
                    r.append(n.as_str());
                },
                None => r.append("on a signal"),
            }
            r.append(" — a command variable's output IS its value, so a failure has no value to give: `");
            r.append(command);
            r.append("`. If a fallback is meant, ");
            append_fallback(&mut r);
            let e = echo(stderr.as_str());
            r.append(e.as_str());
        },
        DerivationFailure::Truncated { cap } => {
            r.append(": the command printed more than ");
            let n = decimal_string(*cap as u64);
            r.append(n.as_str());
            r.append(" bytes — a value is a path or a token, not a listing; narrow the command (`… | head -1`): `");
            r.append(command);
            r.append("`");
        },
        DerivationFailure::Empty => {
            r.append(
                ": the command printed nothing — a silently empty value would expand into a plausible-looking wrong path that fails much later, which is worse than not starting: `",
            );
            r.append(command);
            r.append("`. If empty is meaningful here, ");
            append_fallback(&mut r);
        },
        DerivationFailure::Timeout(ms) => {
            r.append(": the command was still running after ");
            let b = brief_duration(*ms);
            r.append(b.as_str());
            r.append(
                " — a once-at-load variable runs before the first frame, so a hanging command hangs startup with no UI to explain it: `",
            );
            r.append(command);
            r.append("`. Bound the command itself (`timeout 2 …`), or derive the value another way");
        },
    }
    r
}

} // verus!

verus! {

/// A failed command's kept stderr lines as one text: each line read as
/// UTF-8 (lossily), joined with newlines.
pub fn exit_stderr(lines: &Vec<Vec<u8>>) -> (r: String)
    ensures
        r@ == joined(lines@.map_values(|l: Vec<u8>| utf8_lossy(l@)), "\n"@),
{
    let mut texts: Vec<String> = Vec::new();
    let mut i: usize = 0;
    while i < lines.len()
        invariant
            i <= lines@.len(),
            texts@.len() == i,
            forall|k: int| 0 <= k < i ==> (#[trigger] texts@[k])@ == utf8_lossy(lines@[k]@),
        decreases lines@.len() - i,
    {
        let t = lossy_text(lines[i].as_slice());
        texts.push(t);
        i = i + 1;
    }
    assert(texts@.map_values(|s: String| s@) =~= lines@.map_values(|l: Vec<u8>| utf8_lossy(l@)));
    join_strings(texts.as_slice(), "\n")
}

/// The first newline at or after `i`, or the length.
pub open spec fn newline_at(all: Seq<u8>, i: int) -> int
    decreases all.len() - i,
{
    if i < 0 || i >= all.len() {
        all.len() as int
    } else if all[i] == 10u8 {
        i
    } else {
        newline_at(all, i + 1)
    }
}

pub proof fn lemma_newline_at(all: Seq<u8>, i: int)
    requires
        0 <= i <= all.len(),
    ensures
        i <= newline_at(all, i) <= all.len(),
        newline_at(all, i) < all.len() ==> all[newline_at(all, i)] == 10u8,
    decreases all.len() - i,
{
    if i < all.len() && all[i] != 10u8 {
        lemma_newline_at(all, i + 1);
    }
}

/// The bytes from `start` on, cut at every newline.
pub open spec fn split_from(all: Seq<u8>, start: int) -> Seq<Seq<u8>>
    decreases all.len() - start,
{
    if start < 0 || start > all.len() || newline_at(all, start) >= all.len() {
        seq![all.subrange(start, all.len() as int)]
    } else {
        proof {
            lemma_newline_at(all, start);
        }
        seq![all.subrange(start, newline_at(all, start))] + split_from(all, newline_at(all, start) + 1)
    }
}

/// The ellipsis line, as UTF-8.
pub open spec fn ellipsis_bytes() -> Seq<u8> {
    seq![0xE2u8, 0x80u8, 0xA6u8]
}

/// A stream's lines with the empty one after a final newline dropped,
/// the first `max` of them, and a `…` line when more followed.
pub open spec fn echo_lines_spec(all: Seq<u8>, max: usize) -> Seq<Seq<u8>> {
    let cut = split_from(all, 0);
    let lines = if cut.last().len() == 0 { cut.drop_last() } else { cut };
    if lines.len() > max {
        lines.take(max as int).push(ellipsis_bytes())
    } else {
        lines
    }
}

pub open spec fn byte_lines(v: Seq<Vec<u8>>) -> Seq<Seq<u8>> {
    v.map_values(|l: Vec<u8>| l@)
}

/// The lines of a child's stderr worth echoing: at most `max`, then a
/// `…` line when more followed.
pub fn echo_lines(all: &[u8], max: usize) -> (r: Vec<Vec<u8>>)
    ensures
        byte_lines(r@) == echo_lines_spec(all@, max),
{
    let n = all.len();
    let mut lines: Vec<Vec<u8>> = Vec::new();
    let mut start: usize = 0;
    loop
        invariant_except_break
            start <= n,
            n == all@.len(),
            byte_lines(lines@) + split_from(all@, start as int) == split_from(all@, 0),
        ensures
            byte_lines(lines@) == split_from(all@, 0),
        decreases n - start,
    {
        let mut p: usize = start;
        let mut line: Vec<u8> = Vec::new();
        proof { lemma_newline_at(all@, start as int); }
        while p < n && all[p] != 10u8
            invariant
                start <= p <= n,
                n == all@.len(),
                newline_at(all@, start as int) == newline_at(all@, p as int),
                line@ == all@.subrange(start as int, p as int),
            decreases n - p,
        {
            line.push(all[p]);
            p = p + 1;
            assert(line@ =~= all@.subrange(start as int, p as int));
        }
        let ghost before = lines@;
        lines.push(line);
        assert(byte_lines(lines@) =~= byte_lines(before).push(all@.subrange(start as int, p as int)));
        if p == n {
            assert(split_from(all@, start as int) == seq![all@.subrange(start as int, p as int)]);
            assert(byte_lines(lines@) =~= byte_lines(before) + split_from(all@, start as int));
            break;
        }
        assert(split_from(all@, start as int) == seq![all@.subrange(start as int, p as int)] + split_from(all@, p + 1));
        assert(byte_lines(lines@) + split_from(all@, p + 1) =~= byte_lines(before) + split_from(all@, start as int));
        start = p + 1;
    }
    let k = lines.len();
    if k > 0 && lines[k - 1].len() == 0 {
        let ghost before = lines@;
        lines.pop();
        assert(byte_lines(lines@) =~= byte_lines(before).drop_last());
    }
    if lines.len() > max {
        let ghost full = lines@;
        lines.truncate(max);
        assert(byte_lines(lines@) =~= byte_lines(full).take(max as int));
        let dots: Vec<u8> = vec![0xE2u8, 0x80u8, 0xA6u8];
        let ghost before = lines@;
        lines.push(dots);
        assert(byte_lines(lines@) =~= byte_lines(before).push(ellipsis_bytes()));
        lines
    } else {
        lines
    }
}

} // verus!
