//! Splitting a desktop entry's `Exec` line into arguments, and quoting
//! arguments for the shell that greetd runs them through.

use vstd::prelude::*;

use crate::text::{chars_of, join_with, string_from};

verus! {

/// Why an `Exec` line could not be split into arguments.
#[derive(Debug, Clone, Copy, PartialEq, Eq, Structural)]
pub enum ExecError {
    Empty,
    UnterminatedQuote,
}

impl ExecError {
    /// The human-readable description of the error.
    pub fn message(&self) -> (r: &'static str)
        ensures
            r@ == (match self {
                ExecError::Empty => "the Exec line is empty"@,
                ExecError::UnterminatedQuote => "the Exec line has an unterminated quote"@,
            }),
    {
        match self {
            ExecError::Empty => "the Exec line is empty",
            ExecError::UnterminatedQuote => "the Exec line has an unterminated quote",
        }
    }
}

/// The tokenizer's state after reading a prefix of an `Exec` line.
pub struct Scan {
    /// The arguments completed so far.
    pub tokens: Seq<Seq<char>>,
    /// The argument being built.
    pub current: Seq<char>,
    /// Whether the argument being built counts even if it is empty.
    pub has_token: bool,
    /// The quote character of an open quotation.
    pub quote: Option<char>,
}

pub open spec fn scan_start() -> Scan {
    Scan { tokens: seq![], current: seq![], has_token: false, quote: None }
}

pub open spec fn with_char(st: Scan, c: char) -> Scan {
    Scan { current: st.current.push(c), ..st }
}

/// A `%` field code whose code character would stand at `j`: `%%` is a
/// literal percent sign, any other code is dropped, and a `%` at the very
/// end is kept.
pub open spec fn field_code(s: Seq<char>, j: int, st: Scan) -> (int, Scan) {
    if j < s.len() {
        if s[j] == '%' {
            (j + 1, with_char(st, '%'))
        } else {
            (j + 1, st)
        }
    } else {
        (j, with_char(st, '%'))
    }
}

/// Reads the character at `i` (and the one after it, for an escape or a
/// field code): the next position and the new state.
pub open spec fn scan_step(s: Seq<char>, i: int, st: Scan) -> (int, Scan) {
    let c = s[i];
    match st.quote {
        Some(q) => {
            if c == q {
                (i + 1, Scan { quote: None, ..st })
            } else if c == '\\' && q == '"' {
                if i + 1 < s.len() {
                    (i + 2, with_char(st, s[i + 1]))
                } else {
                    (i + 1, st)
                }
            } else if c == '%' {
                field_code(s, i + 1, st)
            } else {
                (i + 1, with_char(st, c))
            }
        },
        None => {
            if c == ' ' || c == '\t' {
                if st.has_token {
                    (i + 1, Scan { tokens: st.tokens.push(st.current), current: seq![], has_token: false, quote: None })
                } else {
                    (i + 1, st)
                }
            } else if c == '"' || c == '\'' {
                (i + 1, Scan { quote: Some(c), has_token: true, ..st })
            } else if c == '\\' {
                if i + 1 < s.len() {
                    (i + 2, Scan { has_token: true, ..with_char(st, s[i + 1]) })
                } else {
                    (i + 1, Scan { has_token: true, ..st })
                }
            } else if c == '%' {
                field_code(s, i + 1, st)
            } else {
                (i + 1, Scan { has_token: true, ..with_char(st, c) })
            }
        },
    }
}

/// The tokenizer's state after reading `s` from position `i` to the end.
pub open spec fn scan_from(s: Seq<char>, i: int, st: Scan) -> Scan
    decreases s.len() - i,
{
    if 0 <= i < s.len() {
        let (j, next) = scan_step(s, i, st);
        if i < j <= s.len() {
            scan_from(s, j, next)
        } else {
            next
        }
    } else {
        st
    }
}

/// The arguments of a finished scan, or why there are none.
pub open spec fn scan_result(st: Scan) -> Result<Seq<Seq<char>>, ExecError> {
    if st.quote is Some {
        Err(ExecError::UnterminatedQuote)
    } else {
        let tokens = if st.has_token { st.tokens.push(st.current) } else { st.tokens };
        if tokens.len() == 0 {
            Err(ExecError::Empty)
        } else {
            Ok(tokens)
        }
    }
}

/// The arguments of an `Exec` line: split on unquoted blanks, with single
/// and double quotes, backslash escapes and `%` field codes.
pub open spec fn exec_args(s: Seq<char>) -> Result<Seq<Seq<char>>, ExecError> {
    scan_result(scan_from(s, 0, scan_start()))
}

proof fn lemma_scan_step_advances(s: Seq<char>, i: int, st: Scan)
    requires
        0 <= i < s.len(),
    ensures
        i < scan_step(s, i, st).0 <= s.len(),
{
}

spec fn chars_views(v: Seq<Vec<char>>) -> Seq<Seq<char>> {
    v.map_values(|t: Vec<char>| t@)
}

/// Splits an `Exec` line into its arguments, following the quoting rules of
/// the desktop entry specification; field codes such as `%U` are dropped and
/// `%%` stands for `%`.
pub fn parse_exec(exec: &str) -> (r: Result<Vec<String>, ExecError>)
    ensures
        match r {
            Ok(args) => exec_args(exec@) == Ok::<Seq<Seq<char>>, ExecError>(args@.map_values(|a: String| a@)),
            Err(e) => exec_args(exec@) == Err::<Seq<Seq<char>>, ExecError>(e),
        },
{
    let s = chars_of(exec);
    let n = s.len();
    let mut tokens: Vec<Vec<char>> = Vec::new();
    let mut current: Vec<char> = Vec::new();
    let mut has_token = false;
    let mut quote: Option<char> = None;
    let mut i: usize = 0;
    assert(chars_views(tokens@) =~= seq![]);
    while i < n
        invariant
            n == s.len(),
            s@ == exec@,
            i <= n,
            scan_from(s@, 0, scan_start()) == scan_from(
                s@,
                i as int,
                Scan { tokens: chars_views(tokens@), current: current@, has_token, quote },
            ),
        decreases n - i,
    {
        let ghost st = Scan { tokens: chars_views(tokens@), current: current@, has_token, quote };
        let ghost next = scan_step(s@, i as int, st);
        proof {
            lemma_scan_step_advances(s@, i as int, st);
        }
        let c = s[i];
        match quote {
            Some(q) => {
                if c == q {
                    quote = None;
                    i += 1;
                } else if c == '\\' && q == '"' {
                    if i + 1 < n {
                        current.push(s[i + 1]);
                        i += 2;
                    } else {
                        i += 1;
                    }
                } else if c == '%' {
                    if i + 1 < n {
                        if s[i + 1] == '%' {
                            current.push('%');
                        }
                        i += 2;
                    } else {
                        current.push('%');
                        i += 1;
                    }
                } else {
                    current.push(c);
                    i += 1;
                }
            },
            None => {
                if c == ' ' || c == '\t' {
                    if has_token {
                        let done = current;
                        current = Vec::new();
                        tokens.push(done);
                        has_token = false;
                        assert(chars_views(tokens@) =~= st.tokens.push(st.current));
                    }
                    i += 1;
                } else if c == '"' || c == '\'' {
                    quote = Some(c);
                    has_token = true;
                    i += 1;
                } else if c == '\\' {
                    if i + 1 < n {
                        current.push(s[i + 1]);
                        i += 2;
                    } else {
                        i += 1;
                    }
                    has_token = true;
                } else if c == '%' {
                    if i + 1 < n {
                        if s[i + 1] == '%' {
                            current.push('%');
                        }
                        i += 2;
                    } else {
                        current.push('%');
                        i += 1;
                    }
                } else {
                    current.push(c);
                    has_token = true;
                    i += 1;
                }
            },
        }
        assert(next.0 == i as int);
        assert(next.1 == Scan { tokens: chars_views(tokens@), current: current@, has_token, quote });
    }
    let ghost last = Scan { tokens: chars_views(tokens@), current: current@, has_token, quote };
    assert(scan_from(s@, 0, scan_start()) == last);
    if quote.is_some() {
        return Err(ExecError::UnterminatedQuote);
    }
    if has_token {
        let done = current;
        tokens.push(done);
        assert(chars_views(tokens@) =~= last.tokens.push(last.current));
    }
    if tokens.len() == 0 {
        return Err(ExecError::Empty);
    }
    let mut args: Vec<String> = Vec::new();
    let mut k: usize = 0;
    while k < tokens.len()
        invariant
            k <= tokens.len(),
            args@.map_values(|a: String| a@) =~= chars_views(tokens@).take(k as int),
        decreases tokens.len() - k,
    {
        let arg = string_from(tokens[k].as_slice());
        args.push(arg);
        assert(chars_views(tokens@).take(k + 1) =~= chars_views(tokens@).take(k as int).push(tokens@[k as int]@));
        k += 1;
    }
    assert(chars_views(tokens@).take(tokens.len() as int) =~= chars_views(tokens@));
    Ok(args)
}


/// How one character of an argument is written between single quotes: a
/// single quote closes the quotation, is escaped, and reopens it.
pub open spec fn quoted_char(c: char) -> Seq<char> {
    if c == '\'' {
        seq!['\'', '\\', '\'', '\'']
    } else {
        seq![c]
    }
}

/// The characters of an argument as written between single quotes.
pub open spec fn quoted_body(s: Seq<char>) -> Seq<char>
    decreases s.len(),
{
    if s.len() == 0 {
        seq![]
    } else {
        quoted_body(s.drop_last()) + quoted_char(s.last())
    }
}

/// An argument quoted for a POSIX shell.
pub open spec fn shell_quoted(s: Seq<char>) -> Seq<char> {
    seq!['\''] + quoted_body(s) + seq!['\'']
}

/// Quotes an argument for a POSIX shell: the result is one word that the
/// shell reads back as `arg`, whatever characters it holds.
pub fn shell_quote(arg: &str) -> (r: String)
    ensures
        r@ == shell_quoted(arg@),
{
    let s = chars_of(arg);
    let mut out: Vec<char> = Vec::new();
    out.push('\'');
    let mut i: usize = 0;
    while i < s.len()
        invariant
            i <= s.len(),
            out@ == seq!['\''] + quoted_body(s@.take(i as int)),
        decreases s.len() - i,
    {
        let c = s[i];
        if c == '\'' {
            out.push('\'');
            out.push('\\');
            out.push('\'');
            out.push('\'');
        } else {
            out.push(c);
        }
        assert(s@.take(i + 1).drop_last() =~= s@.take(i as int));
        assert(out@ =~= seq!['\''] + quoted_body(s@.take(i + 1)));
        i += 1;
    }
    assert(s@.take(s.len() as int) =~= s@);
    out.push('\'');
    assert(out@ =~= shell_quoted(arg@));
    string_from(out.as_slice())
}

/// The command that greetd runs for an argument vector: each argument quoted
/// for the shell.
pub open spec fn greetd_cmd(argv: Seq<Seq<char>>) -> Seq<Seq<char>> {
    argv.map_values(|a: Seq<char>| shell_quoted(a))
}

/// Quotes each argument for the shell that greetd starts the session with.
pub fn to_greetd_cmd(argv: &[String]) -> (r: Vec<String>)
    ensures
        r@.map_values(|a: String| a@) == greetd_cmd(argv@.map_values(|a: String| a@)),
{
    let mut out: Vec<String> = Vec::new();
    let mut i: usize = 0;
    while i < argv.len()
        invariant
            i <= argv.len(),
            out@.map_values(|a: String| a@) =~= greetd_cmd(argv@.map_values(|a: String| a@)).take(i as int),
        decreases argv.len() - i,
    {
        let q = shell_quote(argv[i].as_str());
        out.push(q);
        assert(greetd_cmd(argv@.map_values(|a: String| a@)).take(i + 1) =~= greetd_cmd(
            argv@.map_values(|a: String| a@),
        ).take(i as int).push(shell_quoted(argv@[i as int]@)));
        i += 1;
    }
    assert(greetd_cmd(argv@.map_values(|a: String| a@)).take(argv.len() as int) =~= greetd_cmd(
        argv@.map_values(|a: String| a@),
    ));
    out
}


/// A POSIX shell's reading of a word, so far: the characters it stands for,
/// whether a single-quoted part is open, whether a backslash escapes the next
/// character, and whether some character stood outside quotes unescaped
/// (where the shell could take it for an operator or a word break).
pub struct ShellWord {
    pub chars: Seq<char>,
    pub quoted: bool,
    pub escaped: bool,
    pub bare: bool,
}

/// How the shell reads one more character of a word.
pub open spec fn shell_step(w: ShellWord, c: char) -> ShellWord {
    if w.quoted {
        if c == '\'' {
            ShellWord { quoted: false, ..w }
        } else {
            ShellWord { chars: w.chars.push(c), ..w }
        }
    } else if w.escaped {
        ShellWord { chars: w.chars.push(c), escaped: false, ..w }
    } else if c == '\\' {
        ShellWord { escaped: true, ..w }
    } else if c == '\'' {
        ShellWord { quoted: true, ..w }
    } else {
        ShellWord { chars: w.chars.push(c), bare: true, ..w }
    }
}

/// How the shell reads a word made of single-quoted parts and backslash
/// escapes.
pub open spec fn shell_read(word: Seq<char>) -> ShellWord
    decreases word.len(),
{
    if word.len() == 0 {
        ShellWord { chars: seq![], quoted: false, escaped: false, bare: false }
    } else {
        shell_step(shell_read(word.drop_last()), word.last())
    }
}

proof fn lemma_shell_reads_quoted_body(s: Seq<char>)
    ensures
        shell_read(seq!['\''] + quoted_body(s)) == (ShellWord { chars: s, quoted: true, escaped: false, bare: false }),
    decreases s.len(),
{
    if s.len() == 0 {
        assert(seq!['\''] + quoted_body(s) =~= seq!['\'']);
        assert(seq!['\''].drop_last() =~= Seq::<char>::empty());
        assert(seq!['\''].last() == '\'');
        assert(s =~= Seq::<char>::empty());
        assert(shell_read(seq!['\''].drop_last()) == (ShellWord { chars: seq![], quoted: false, escaped: false, bare: false }));
        assert(shell_read(seq!['\'']) == (ShellWord { chars: s, quoted: true, escaped: false, bare: false }));
    } else {
        let prefix = s.drop_last();
        let c = s.last();
        lemma_shell_reads_quoted_body(prefix);
        let before = seq!['\''] + quoted_body(prefix);
        if c == '\'' {
            let w1 = before.push('\'');
            let w2 = w1.push('\\');
            let w3 = w2.push('\'');
            let w4 = w3.push('\'');
            assert(w1.drop_last() =~= before);
            assert(w2.drop_last() =~= w1);
            assert(w3.drop_last() =~= w2);
            assert(w4.drop_last() =~= w3);
            assert(shell_read(w1) == (ShellWord { chars: prefix, quoted: false, escaped: false, bare: false }));
            assert(shell_read(w2) == (ShellWord { chars: prefix, quoted: false, escaped: true, bare: false }));
            assert(shell_read(w3) == (ShellWord { chars: prefix.push('\''), quoted: false, escaped: false, bare: false }));
            assert(shell_read(w4) == (ShellWord { chars: prefix.push('\''), quoted: true, escaped: false, bare: false }));
            assert(seq!['\''] + quoted_body(s) =~= w4);
            assert(prefix.push('\'') =~= s);
            assert(shell_read(seq!['\''] + quoted_body(s)) == (ShellWord { chars: s, quoted: true, escaped: false, bare: false }));
        } else {
            assert(seq!['\''] + quoted_body(s) =~= before.push(c));
            assert(before.push(c).drop_last() =~= before);
            assert(prefix.push(c) =~= s);
        }
    }
}

/// The shell reads a quoted argument back as exactly that argument, with no
/// character left outside quotes, whatever the argument holds: quoting
/// makes a hostile `Exec` line harmless.
pub proof fn lemma_shell_reads_back_quoted(s: Seq<char>)
    ensures
        shell_read(shell_quoted(s)) == (ShellWord { chars: s, quoted: false, escaped: false, bare: false }),
{
    lemma_shell_reads_quoted_body(s);
    let body = seq!['\''] + quoted_body(s);
    assert(shell_quoted(s) =~= body.push('\''));
    assert(body.push('\'').drop_last() =~= body);
}


proof fn lemma_quoted_body_prefix(arg: Seq<char>, k: int)
    requires
        0 <= k <= arg.len(),
    ensures
        quoted_body(arg.take(k)).len() <= quoted_body(arg).len(),
        quoted_body(arg).take(quoted_body(arg.take(k)).len() as int) == quoted_body(arg.take(k)),
    decreases arg.len() - k,
{
    if k == arg.len() {
        assert(arg.take(k) =~= arg);
        assert(quoted_body(arg).take(quoted_body(arg).len() as int) =~= quoted_body(arg));
    } else {
        let front = arg.drop_last();
        lemma_quoted_body_prefix(front, k);
        assert(front.take(k) =~= arg.take(k));
        let l = quoted_body(arg.take(k)).len() as int;
        assert((quoted_body(front) + quoted_char(arg.last())).take(l) =~= quoted_body(front).take(l));
    }
}

/// Scanning a quoted argument reaches the end of its first `k` characters
/// inside the quotation, with those characters read.
proof fn lemma_scan_quoted(arg: Seq<char>, k: int)
    requires
        0 <= k <= arg.len(),
        forall|i: int| 0 <= i < arg.len() ==> #[trigger] arg[i] != '%',
    ensures
        scan_from(shell_quoted(arg), 0, scan_start()) == scan_from(
            shell_quoted(arg),
            1 + quoted_body(arg.take(k)).len() as int,
            Scan { tokens: seq![], current: arg.take(k), has_token: true, quote: Some('\'') },
        ),
    decreases k,
{
    let s = shell_quoted(arg);
    lemma_quoted_body_prefix(arg, k);
    let qk = quoted_body(arg.take(k));
    let head = seq!['\''] + qk;
    assert(s.take(head.len() as int) =~= head) by {
        assert(quoted_body(arg).take(qk.len() as int) == qk);
        assert forall|m: int| 0 <= m < head.len() implies #[trigger] s.take(head.len() as int)[m] == head[m] by {
            if m > 0 {
                assert(quoted_body(arg).take(qk.len() as int)[m - 1] == quoted_body(arg)[m - 1]);
            }
        }
    }
    assert(s.len() == quoted_body(arg).len() + 2);
    if k == 0 {
        assert(arg.take(0) =~= Seq::<char>::empty());
        assert(qk =~= Seq::<char>::empty());
        assert(s[0] == '\'');
        let next = Scan { tokens: seq![], current: seq![], has_token: true, quote: Some('\'') };
        assert(scan_step(s, 0, scan_start()) == (1int, next));
    } else {
        lemma_scan_quoted(arg, k - 1);
        let c = arg[k - 1];
        let qp = quoted_body(arg.take(k - 1));
        assert(arg.take(k).drop_last() =~= arg.take(k - 1));
        assert(qk == qp + quoted_char(c));
        let p = 1 + qp.len() as int;
        let before = Scan { tokens: seq![], current: arg.take(k - 1), has_token: true, quote: Some('\'') };
        assert(arg.take(k - 1).push(c) =~= arg.take(k));
        assert(s.take(head.len() as int)[p] == s[p]);
        assert(head[p] == quoted_char(c)[0]);
        if c == '\'' {
            assert(s.take(head.len() as int)[p + 1] == s[p + 1]);
            assert(s.take(head.len() as int)[p + 2] == s[p + 2]);
            assert(s.take(head.len() as int)[p + 3] == s[p + 3]);
            assert(head[p + 1] == quoted_char(c)[1]);
            assert(head[p + 2] == quoted_char(c)[2]);
            assert(head[p + 3] == quoted_char(c)[3]);
            assert(s[p] == '\'');
            assert(s[p + 1] == '\\');
            assert(s[p + 2] == '\'');
            assert(s[p + 3] == '\'');
            let closed = Scan { quote: None, ..before };
            let escaped = Scan { has_token: true, ..with_char(closed, '\'') };
            let reopened = Scan { quote: Some('\''), has_token: true, ..escaped };
            assert(scan_step(s, p, before) == (p + 1, closed));
            assert(scan_step(s, p + 1, closed) == (p + 3, escaped));
            assert(scan_step(s, p + 3, escaped) == (p + 4, reopened));
            assert(scan_from(s, p, before) == scan_from(s, p + 1, closed));
            assert(scan_from(s, p + 1, closed) == scan_from(s, p + 3, escaped));
            assert(scan_from(s, p + 3, escaped) == scan_from(s, p + 4, reopened));
        } else {
            assert(s[p] == c);
            assert(scan_step(s, p, before) == (p + 1, with_char(before, c)));
        }
    }
}

/// Quoting an argument for the shell, then splitting the result as an
/// `Exec` line, gives back exactly that argument, whatever blanks, quotes or
/// shell operators it holds; only `%` is left out, which the `Exec` syntax
/// reads as a field code even inside quotes.
pub proof fn lemma_quoted_argument_splits_back(arg: Seq<char>)
    requires
        forall|i: int| 0 <= i < arg.len() ==> #[trigger] arg[i] != '%',
    ensures
        exec_args(shell_quoted(arg)) == Ok::<Seq<Seq<char>>, ExecError>(seq![arg]),
{
    let s = shell_quoted(arg);
    let n = arg.len() as int;
    lemma_scan_quoted(arg, n);
    assert(arg.take(n) =~= arg);
    let p = 1 + quoted_body(arg).len() as int;
    assert(s.len() == p + 1);
    assert(s[p] == '\'');
    let inside = Scan { tokens: seq![], current: arg, has_token: true, quote: Some('\'') };
    let done = Scan { quote: None, ..inside };
    assert(scan_step(s, p, inside) == (p + 1, done));
    assert(scan_from(s, p, inside) == scan_from(s, p + 1, done));
    assert(scan_from(s, p + 1, done) == done);
    assert(Seq::<Seq<char>>::empty().push(arg) =~= seq![arg]);
}

/// A character that the `Exec` syntax gives no special meaning.
pub open spec fn plain_char(c: char) -> bool {
    !(c == ' ' || c == '\t' || c == '"' || c == '\'' || c == '\\' || c == '%')
}

/// A non-empty word of plain characters.
pub open spec fn plain_word(w: Seq<char>) -> bool {
    w.len() > 0 && forall|i: int| 0 <= i < w.len() ==> plain_char(#[trigger] w[i])
}

proof fn lemma_scan_plain_run(s: Seq<char>, i: int, j: int, st: Scan)
    requires
        0 <= i <= j <= s.len(),
        forall|k: int| i <= k < j ==> plain_char(#[trigger] s[k]),
        st.quote is None,
    ensures
        scan_from(s, i, st) == scan_from(
            s,
            j,
            Scan {
                tokens: st.tokens,
                current: st.current + s.subrange(i, j),
                has_token: st.has_token || i < j,
                quote: None,
            },
        ),
    decreases j - i,
{
    if i == j {
        assert(st.current + s.subrange(i, j) =~= st.current);
    } else {
        let next = Scan { has_token: true, ..with_char(st, s[i]) };
        assert(scan_step(s, i, st) == (i + 1, next));
        lemma_scan_plain_run(s, i + 1, j, next);
        assert(next.current + s.subrange(i + 1, j) =~= st.current + s.subrange(i, j));
    }
}

proof fn lemma_join_prefix(ws: Seq<Seq<char>>, k: int)
    requires
        1 <= k <= ws.len(),
    ensures
        join_with(ws.take(k), ' ').len() <= join_with(ws, ' ').len(),
        join_with(ws, ' ').take(join_with(ws.take(k), ' ').len() as int) == join_with(ws.take(k), ' '),
    decreases ws.len() - k,
{
    if k == ws.len() {
        assert(ws.take(k) =~= ws);
        assert(join_with(ws, ' ').take(join_with(ws, ' ').len() as int) =~= join_with(ws, ' '));
    } else {
        let front = ws.drop_last();
        lemma_join_prefix(front, k);
        assert(front.take(k) =~= ws.take(k));
        let jf = join_with(front, ' ');
        let jk = join_with(ws.take(k), ' ');
        assert(join_with(ws, ' ') == jf.push(' ') + ws.last());
        assert((jf.push(' ') + ws.last()).take(jk.len() as int) =~= jf.take(jk.len() as int));
    }
}

/// Scanning a line of plain words joined by single blanks reaches the end
/// of the `k`-th word with the words before it completed and the `k`-th one
/// under way.
proof fn lemma_scan_words(ws: Seq<Seq<char>>, k: int)
    requires
        ws.len() >= 1,
        1 <= k <= ws.len(),
        forall|i: int| 0 <= i < ws.len() ==> plain_word(#[trigger] ws[i]),
    ensures
        scan_from(join_with(ws, ' '), 0, scan_start()) == scan_from(
            join_with(ws, ' '),
            join_with(ws.take(k), ' ').len() as int,
            Scan { tokens: ws.take(k - 1), current: ws[k - 1], has_token: true, quote: None },
        ),
    decreases k,
{
    let s = join_with(ws, ' ');
    lemma_join_prefix(ws, k);
    let jk = join_with(ws.take(k), ' ');
    if k == 1 {
        assert(ws.take(1) =~= seq![ws[0]]);
        assert(jk == ws[0]);
        assert forall|m: int| 0 <= m < jk.len() implies plain_char(#[trigger] s[m]) by {
            assert(s.take(jk.len() as int)[m] == s[m]);
            assert(plain_char(ws[0][m]));
        }
        lemma_scan_plain_run(s, 0, jk.len() as int, scan_start());
        assert(Seq::<char>::empty() + s.subrange(0, jk.len() as int) =~= ws[0]);
        assert(ws.take(0) =~= Seq::<Seq<char>>::empty());
    } else {
        lemma_scan_words(ws, k - 1);
        lemma_join_prefix(ws, k - 1);
        let jp = join_with(ws.take(k - 1), ' ');
        assert(ws.take(k).drop_last() =~= ws.take(k - 1));
        assert(jk == jp.push(' ') + ws[k - 1]);
        let p = jp.len() as int;
        assert(s[p] == jk[p]) by {
            assert(s.take(jk.len() as int)[p] == s[p]);
        }
        assert(s[p] == ' ');
        let before = Scan { tokens: ws.take(k - 2), current: ws[k - 2], has_token: true, quote: None };
        let after_blank = Scan { tokens: ws.take(k - 2).push(ws[k - 2]), current: seq![], has_token: false, quote: None };
        assert(scan_step(s, p, before) == (p + 1, after_blank));
        assert(ws.take(k - 2).push(ws[k - 2]) =~= ws.take(k - 1));
        assert forall|m: int| p + 1 <= m < jk.len() implies plain_char(#[trigger] s[m]) by {
            assert(s.take(jk.len() as int)[m] == s[m]);
            assert(jk[m] == ws[k - 1][m - p - 1]);
            assert(plain_char(ws[k - 1][m - p - 1]));
        }
        lemma_scan_plain_run(s, p + 1, jk.len() as int, after_blank);
        assert(s.subrange(p + 1, jk.len() as int) =~= ws[k - 1]) by {
            assert forall|m: int| 0 <= m < ws[k - 1].len() implies #[trigger] s.subrange(p + 1, jk.len() as int)[m]
                == ws[k - 1][m] by {
                assert(s.take(jk.len() as int)[p + 1 + m] == s[p + 1 + m]);
            }
        }
        assert(Seq::<char>::empty() + s.subrange(p + 1, jk.len() as int) =~= ws[k - 1]);
    }
}

/// A line of plain words separated by single blanks splits into exactly
/// those words.
pub proof fn lemma_plain_words_split(ws: Seq<Seq<char>>)
    requires
        ws.len() >= 1,
        forall|i: int| 0 <= i < ws.len() ==> plain_word(#[trigger] ws[i]),
    ensures
        exec_args(join_with(ws, ' ')) == Ok::<Seq<Seq<char>>, ExecError>(ws),
{
    let n = ws.len() as int;
    lemma_scan_words(ws, n);
    assert(ws.take(n) =~= ws);
    let last = Scan { tokens: ws.take(n - 1), current: ws[n - 1], has_token: true, quote: None };
    assert(scan_from(join_with(ws, ' '), join_with(ws, ' ').len() as int, last) == last);
    assert(ws.take(n - 1).push(ws[n - 1]) =~= ws);
}

/// An unquoted blank, which ends the argument being built.
pub open spec fn blank_char(c: char) -> bool {
    c == ' ' || c == '\t'
}

/// A run of blanks, possibly empty.
pub open spec fn blank_run(g: Seq<char>) -> bool {
    forall|i: int| 0 <= i < g.len() ==> blank_char(#[trigger] g[i])
}

/// The words with the `k`-th gap between the `k`-th word and the next.
pub open spec fn words_with_gaps(ws: Seq<Seq<char>>, gaps: Seq<Seq<char>>) -> Seq<char>
    decreases ws.len(),
{
    if ws.len() == 0 {
        seq![]
    } else if ws.len() == 1 {
        ws[0]
    } else {
        words_with_gaps(ws.drop_last(), gaps.drop_last()) + (gaps.last() + ws.last())
    }
}

spec fn simple_text(s: Seq<char>) -> bool {
    forall|i: int| 0 <= i < s.len() ==> plain_char(#[trigger] s[i]) || blank_char(s[i])
}

/// The state after an unquoted blank: the argument under way, if any, is
/// completed.
spec fn token_ended(st: Scan) -> Scan {
    if st.has_token {
        Scan { tokens: st.tokens.push(st.current), current: seq![], has_token: false, quote: None }
    } else {
        st
    }
}

proof fn lemma_scan_shift(x: Seq<char>, y: Seq<char>, i: int, st: Scan)
    requires
        0 <= i <= y.len(),
    ensures
        scan_from(x + y, x.len() + i, st) == scan_from(y, i, st),
    decreases y.len() - i,
{
    let s = x + y;
    if i < y.len() {
        let p = x.len() + i;
        assert(s[p] == y[i]);
        if i + 1 < y.len() {
            assert(s[p + 1] == y[i + 1]);
        }
        if i + 2 < y.len() {
            assert(s[p + 2] == y[i + 2]);
        }
        lemma_scan_step_advances(y, i, st);
        let (j, next) = scan_step(y, i, st);
        assert(scan_step(s, p, st) == (x.len() + j, next));
        lemma_scan_shift(x, y, j, next);
    }
}

proof fn lemma_scan_prefix(x: Seq<char>, y: Seq<char>, i: int, st: Scan)
    requires
        0 <= i <= x.len(),
        forall|k: int| i <= k < x.len() ==> plain_char(#[trigger] x[k]) || blank_char(x[k]),
        st.quote is None,
    ensures
        scan_from(x, i, st).quote is None,
        scan_from(x + y, i, st) == scan_from(x + y, x.len() as int, scan_from(x, i, st)),
    decreases x.len() - i,
{
    let s = x + y;
    if i < x.len() {
        assert(s[i] == x[i]);
        let (j, next) = scan_step(x, i, st);
        assert(j == i + 1);
        assert(scan_step(s, i, st) == (j, next));
        lemma_scan_prefix(x, y, j, next);
    }
}

/// Scanning `x + y`, where `x` holds only plain characters and blanks, is
/// scanning `x` and then `y`.
proof fn lemma_scan_concat(x: Seq<char>, y: Seq<char>, st: Scan)
    requires
        simple_text(x),
        st.quote is None,
    ensures
        scan_from(x, 0, st).quote is None,
        scan_from(x + y, 0, st) == scan_from(y, 0, scan_from(x, 0, st)),
{
    lemma_scan_prefix(x, y, 0, st);
    lemma_scan_shift(x, y, 0, scan_from(x, 0, st));
}

proof fn lemma_scan_blanks(g: Seq<char>, i: int, st: Scan)
    requires
        0 <= i <= g.len(),
        blank_run(g),
        st.quote is None,
    ensures
        scan_from(g, i, st) == (if i < g.len() { token_ended(st) } else { st }),
    decreases g.len() - i,
{
    if i < g.len() {
        assert(blank_char(g[i]));
        assert(scan_step(g, i, st) == (i + 1, token_ended(st)));
        lemma_scan_blanks(g, i + 1, token_ended(st));
    }
}

proof fn lemma_scan_word(w: Seq<char>, st: Scan)
    requires
        plain_word(w),
        st.quote is None,
    ensures
        scan_from(w, 0, st) == (Scan {
            tokens: st.tokens,
            current: st.current + w,
            has_token: true,
            quote: None,
        }),
{
    lemma_scan_plain_run(w, 0, w.len() as int, st);
    assert(w.subrange(0, w.len() as int) =~= w);
}

proof fn lemma_scan_words_with_gaps(lead: Seq<char>, ws: Seq<Seq<char>>, gaps: Seq<Seq<char>>)
    requires
        ws.len() >= 1,
        gaps.len() + 1 == ws.len(),
        forall|i: int| 0 <= i < ws.len() ==> plain_word(#[trigger] ws[i]),
        forall|i: int| 0 <= i < gaps.len() ==> #[trigger] gaps[i].len() > 0 && blank_run(gaps[i]),
        blank_run(lead),
    ensures
        simple_text(lead + words_with_gaps(ws, gaps)),
        scan_from(lead + words_with_gaps(ws, gaps), 0, scan_start()) == (Scan {
            tokens: ws.drop_last(),
            current: ws.last(),
            has_token: true,
            quote: None,
        }),
    decreases ws.len(),
{
    let text = lead + words_with_gaps(ws, gaps);
    if ws.len() == 1 {
        assert(plain_word(ws[0]));
        assert(simple_text(text)) by {
            assert forall|i: int| 0 <= i < text.len() implies plain_char(#[trigger] text[i])
                || blank_char(text[i]) by {
                if i >= lead.len() {
                    assert(text[i] == ws[0][i - lead.len()]);
                }
            }
        }
        assert(simple_text(lead));
        lemma_scan_concat(lead, ws[0], scan_start());
        lemma_scan_blanks(lead, 0, scan_start());
        lemma_scan_word(ws[0], scan_start());
        assert(Seq::<char>::empty() + ws[0] =~= ws[0]);
        assert(ws.drop_last() =~= Seq::<Seq<char>>::empty());
    } else {
        let front = ws.drop_last();
        let fgaps = gaps.drop_last();
        assert forall|i: int| 0 <= i < front.len() implies plain_word(#[trigger] front[i]) by {
            assert(front[i] == ws[i]);
        }
        assert forall|i: int| 0 <= i < fgaps.len() implies #[trigger] fgaps[i].len() > 0
            && blank_run(fgaps[i]) by {
            assert(fgaps[i] == gaps[i]);
        }
        lemma_scan_words_with_gaps(lead, front, fgaps);
        let x = lead + words_with_gaps(front, fgaps);
        let g = gaps.last();
        let w = ws.last();
        assert(g == gaps[gaps.len() - 1]);
        assert(plain_word(ws[ws.len() - 1]));
        assert(text =~= x + (g + w));
        assert(simple_text(g)) by {
            assert forall|i: int| 0 <= i < g.len() implies plain_char(#[trigger] g[i])
                || blank_char(g[i]) by {
                assert(blank_char(g[i]));
            }
        }
        assert(simple_text(text)) by {
            assert forall|i: int| 0 <= i < text.len() implies plain_char(#[trigger] text[i])
                || blank_char(text[i]) by {
                if i < x.len() {
                    assert(text[i] == x[i]);
                } else if i < x.len() + g.len() {
                    assert(text[i] == g[i - x.len()]);
                    assert(blank_char(g[i - x.len()]));
                } else {
                    assert(text[i] == w[i - x.len() - g.len()]);
                }
            }
        }
        let mid = Scan { tokens: front.drop_last(), current: front.last(), has_token: true, quote: None };
        lemma_scan_concat(x, g + w, scan_start());
        lemma_scan_concat(g, w, mid);
        lemma_scan_blanks(g, 0, mid);
        lemma_scan_word(w, token_ended(mid));
        assert(front.drop_last().push(front.last()) =~= front);
        assert(Seq::<char>::empty() + w =~= w);
    }
}

/// Plain words joined by non-empty runs of unquoted blanks (spaces or tabs),
/// with blanks before the first word and after the last, split into exactly
/// those words: a run of blanks never yields an empty argument.
pub proof fn lemma_blank_runs_split_words(
    lead: Seq<char>,
    ws: Seq<Seq<char>>,
    gaps: Seq<Seq<char>>,
    trail: Seq<char>,
)
    requires
        ws.len() >= 1,
        gaps.len() + 1 == ws.len(),
        forall|i: int| 0 <= i < ws.len() ==> plain_word(#[trigger] ws[i]),
        forall|i: int| 0 <= i < gaps.len() ==> #[trigger] gaps[i].len() > 0 && blank_run(gaps[i]),
        blank_run(lead),
        blank_run(trail),
    ensures
        exec_args(lead + words_with_gaps(ws, gaps) + trail) == Ok::<Seq<Seq<char>>, ExecError>(ws),
{
    let x = lead + words_with_gaps(ws, gaps);
    lemma_scan_words_with_gaps(lead, ws, gaps);
    let st = Scan { tokens: ws.drop_last(), current: ws.last(), has_token: true, quote: None };
    lemma_scan_concat(x, trail, scan_start());
    lemma_scan_blanks(trail, 0, st);
    assert(ws.drop_last().push(ws.last()) =~= ws);
}

/// Inside a word, a `%` field code other than `%%` is dropped, `%%` stands
/// for one `%`, and a `%` at the very end is kept.
pub proof fn lemma_field_codes_in_a_word(a: Seq<char>, b: Seq<char>, code: char)
    requires
        plain_word(a),
        plain_word(b),
        code != '%',
    ensures
        exec_args(a + (seq!['%', code] + b)) == Ok::<Seq<Seq<char>>, ExecError>(seq![a + b]),
        exec_args(a + (seq!['%', '%'] + b)) == Ok::<Seq<Seq<char>>, ExecError>(seq![a.push('%') + b]),
        exec_args(a.push('%')) == Ok::<Seq<Seq<char>>, ExecError>(seq![a.push('%')]),
{
    assert(simple_text(a));
    let st = Scan { tokens: seq![], current: a, has_token: true, quote: None };
    lemma_scan_word(a, scan_start());
    assert(Seq::<char>::empty() + a =~= a);
    // a dropped code
    let dropped = seq!['%', code];
    lemma_scan_concat(a, dropped + b, scan_start());
    assert(scan_step(dropped + b, 0, st) == (2int, st));
    lemma_scan_shift(dropped, b, 0, st);
    lemma_scan_word(b, st);
    assert(Seq::<Seq<char>>::empty().push(a + b) =~= seq![a + b]);
    // a doubled percent sign
    let doubled = seq!['%', '%'];
    let with_percent = with_char(st, '%');
    lemma_scan_concat(a, doubled + b, scan_start());
    assert(scan_step(doubled + b, 0, st) == (2int, with_percent));
    lemma_scan_shift(doubled, b, 0, with_percent);
    lemma_scan_word(b, with_percent);
    assert(Seq::<Seq<char>>::empty().push(a.push('%') + b) =~= seq![a.push('%') + b]);
    // a percent sign at the end
    lemma_scan_concat(a, seq!['%'], scan_start());
    assert(scan_step(seq!['%'], 0, st) == (1int, with_percent));
    assert(scan_from(seq!['%'], 0, st) == scan_from(seq!['%'], 1, with_percent));
    assert(scan_from(seq!['%'], 1, with_percent) == with_percent);
    assert(a + seq!['%'] =~= a.push('%'));
    assert(scan_from(a.push('%'), 0, scan_start()) == with_percent);
    assert(Seq::<Seq<char>>::empty().push(a.push('%')) =~= seq![a.push('%')]);
}

proof fn lemma_scan_in_double_quotes(t: Seq<char>, i: int, st: Scan)
    requires
        0 <= i <= t.len(),
        forall|k: int| 0 <= k < t.len() ==> #[trigger] t[k] != '"' && t[k] != '\\' && t[k] != '%',
        st.quote == Some('"'),
    ensures
        scan_from(t, i, st) == (Scan { current: st.current + t.skip(i), ..st }),
    decreases t.len() - i,
{
    if i < t.len() {
        assert(scan_step(t, i, st) == (i + 1, with_char(st, t[i])));
        lemma_scan_in_double_quotes(t, i + 1, with_char(st, t[i]));
        assert(st.current.push(t[i]) + t.skip(i + 1) =~= st.current + t.skip(i));
    } else {
        assert(st.current + t.skip(i) =~= st.current);
    }
}

/// Text between double quotes that holds no double quote, backslash or
/// `%` is one argument, taken literally: its blanks, single quotes and
/// shell operators included, and an empty pair of quotes is an empty
/// argument.
pub proof fn lemma_double_quoted_text_is_one_argument(t: Seq<char>)
    requires
        forall|k: int| 0 <= k < t.len() ==> #[trigger] t[k] != '"' && t[k] != '\\' && t[k] != '%',
    ensures
        exec_args(seq!['"'] + t + seq!['"']) == Ok::<Seq<Seq<char>>, ExecError>(seq![t]),
{
    let line = seq!['"'] + t + seq!['"'];
    let opened = Scan { tokens: seq![], current: seq![], has_token: true, quote: Some('"') };
    assert(line[0] == '"');
    assert(scan_step(line, 0, scan_start()) == (1int, opened));
    assert(line =~= seq!['"'] + (t + seq!['"']));
    lemma_scan_shift(seq!['"'], t + seq!['"'], 0, opened);
    assert(scan_from(line, 0, scan_start()) == scan_from(t + seq!['"'], 0, opened));
    let inside = Scan { current: t, ..opened };
    lemma_scan_prefix_quoted(t, seq!['"'], 0, opened);
    assert(Seq::<char>::empty() + t.skip(0) =~= t);
    lemma_scan_in_double_quotes(t, 0, opened);
    assert(scan_from(t, 0, opened) == inside);
    lemma_scan_shift(t, seq!['"'], 0, inside);
    let done = Scan { quote: None, ..inside };
    assert(scan_step(seq!['"'], 0, inside) == (1int, done));
    assert(scan_from(seq!['"'], 0, inside) == scan_from(seq!['"'], 1, done));
    assert(scan_from(seq!['"'], 1, done) == done);
    assert(scan_from(t + seq!['"'], t.len() as int, inside) == done);
    assert(scan_from(line, 0, scan_start()) == done);
    assert(Seq::<Seq<char>>::empty().push(t) =~= seq![t]);
}

proof fn lemma_scan_prefix_quoted(x: Seq<char>, y: Seq<char>, i: int, st: Scan)
    requires
        0 <= i <= x.len(),
        forall|k: int| 0 <= k < x.len() ==> #[trigger] x[k] != '"' && x[k] != '\\' && x[k] != '%',
        st.quote == Some('"'),
    ensures
        scan_from(x + y, i, st) == scan_from(x + y, x.len() as int, scan_from(x, i, st)),
    decreases x.len() - i,
{
    let s = x + y;
    if i < x.len() {
        assert(s[i] == x[i]);
        assert(scan_step(x, i, st) == (i + 1, with_char(st, x[i])));
        assert(scan_step(s, i, st) == (i + 1, with_char(st, x[i])));
        lemma_scan_prefix_quoted(x, y, i + 1, with_char(st, x[i]));
    }
}

} // verus!
