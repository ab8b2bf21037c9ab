//! Character-level helpers shared by the parsers.

use vstd::prelude::*;

verus! {

/// `String::push`: appends one character.
#[verifier::external_body]
pub(crate) fn push_char(s: &mut String, c: char)
    ensures
        final(s)@ == old(s)@.push(c),
{
    s.push(c)
}

/// The characters of a string slice, in order.
pub fn chars_of(s: &str) -> (v: Vec<char>)
    ensures
        v@ == s@,
{
    let mut v: Vec<char> = Vec::new();
    for c in it: s.chars()
        invariant
            it.seq() == s@,
            v@ == it.seq().take(it.index() as int),
    {
        v.push(c);
    }
    v
}

/// A string holding the given characters.
pub fn string_from(cs: &[char]) -> (s: String)
    ensures
        s@ == cs@,
{
    let mut s = String::new();
    let mut i: usize = 0;
    while i < cs.len()
        invariant
            i <= cs.len(),
            s@ == cs@.take(i as int),
        decreases cs.len() - i,
    {
        push_char(&mut s, cs[i]);
        assert(cs@.take(i as int).push(cs@[i as int]) =~= cs@.take(i + 1));
        i += 1;
    }
    assert(cs@.take(cs.len() as int) =~= cs@);
    s
}

/// Whether two character sequences are equal.
pub fn chars_eq(a: &[char], b: &[char]) -> (r: bool)
    ensures
        r == (a@ == b@),
{
    if a.len() != b.len() {
        return false;
    }
    let mut i: usize = 0;
    while i < a.len()
        invariant
            i <= a.len(),
            a.len() == b.len(),
            forall|j: int| 0 <= j < i ==> a@[j] == b@[j],
        decreases a.len() - i,
    {
        if a[i] != b[i] {
            return false;
        }
        i += 1;
    }
    assert(a@ =~= b@);
    true
}

/// Whether a string slice holds exactly the given characters.
pub fn str_is(s: &str, expected: &str) -> (r: bool)
    ensures
        r == (s@ == expected@),
{
    let a = chars_of(s);
    let b = chars_of(expected);
    chars_eq(a.as_slice(), b.as_slice())
}


/// The characters of each vector of a sequence.
pub open spec fn char_vecs_view(v: Seq<Vec<char>>) -> Seq<Seq<char>> {
    v.map_values(|t: Vec<char>| t@)
}

/// The pieces of `s` between occurrences of `sep`, empty pieces included:
/// what `str::split` gives for a character separator.
pub open spec fn split_on(s: Seq<char>, sep: char) -> Seq<Seq<char>>
    decreases s.len(),
{
    if s.len() == 0 {
        seq![seq![]]
    } else {
        let parts = split_on(s.drop_last(), sep);
        if s.last() == sep {
            parts.push(seq![])
        } else {
            parts.update(parts.len() - 1, parts.last().push(s.last()))
        }
    }
}

/// Splits `s` at every occurrence of `sep`.
pub fn split(s: &[char], sep: char) -> (parts: Vec<Vec<char>>)
    ensures
        char_vecs_view(parts@) == split_on(s@, sep),
        parts.len() >= 1,
{
    let mut done: Vec<Vec<char>> = Vec::new();
    let mut cur: Vec<char> = Vec::new();
    let mut i: usize = 0;
    assert(s@.take(0) =~= Seq::<char>::empty());
    assert(char_vecs_view(done@).push(cur@) =~= seq![seq![]]);
    while i < s.len()
        invariant
            i <= s.len(),
            split_on(s@.take(i as int), sep) == char_vecs_view(done@).push(cur@),
        decreases s.len() - i,
    {
        let ghost before = char_vecs_view(done@).push(cur@);
        assert(s@.take(i + 1).drop_last() =~= s@.take(i as int));
        if s[i] == sep {
            let piece = cur;
            cur = Vec::new();
            done.push(piece);
            assert(char_vecs_view(done@).push(cur@) =~= before.push(seq![]));
        } else {
            cur.push(s[i]);
            assert(char_vecs_view(done@).push(cur@) =~= before.update(
                before.len() - 1,
                before.last().push(s@[i as int]),
            ));
        }
        i += 1;
    }
    assert(s@.take(s.len() as int) =~= s@);
    let piece = cur;
    done.push(piece);
    done
}

/// A line without the carriage return of a `\r\n` ending.
pub open spec fn strip_cr(l: Seq<char>) -> Seq<char> {
    if l.len() > 0 && l.last() == '\r' {
        l.drop_last()
    } else {
        l
    }
}

/// The lines of a text, as `str::lines` gives them: split at `\n`, a `\r`
/// before the `\n` dropped, and no empty last line after a final `\n`.
pub open spec fn lines(s: Seq<char>) -> Seq<Seq<char>> {
    let parts = split_on(s, '\n');
    let ended = parts.drop_last().map_values(|l: Seq<char>| strip_cr(l));
    if parts.last().len() == 0 {
        ended
    } else {
        ended.push(parts.last())
    }
}

/// The lines of a text.
pub fn text_lines(s: &[char]) -> (out: Vec<Vec<char>>)
    ensures
        char_vecs_view(out@) == lines(s@),
{
    let parts = split(s, '\n');
    let ghost pv = char_vecs_view(parts@);
    let mut out: Vec<Vec<char>> = Vec::new();
    let last = parts.len() - 1;
    let mut i: usize = 0;
    while i < last
        invariant
            last == parts.len() - 1,
            pv == char_vecs_view(parts@),
            i <= last,
            char_vecs_view(out@) =~= pv.drop_last().map_values(|l: Seq<char>| strip_cr(l)).take(i as int),
        decreases last - i,
    {
        let line = &parts[i];
        let mut copy: Vec<char> = Vec::new();
        let n = if line.len() > 0 && line[line.len() - 1] == '\r' { line.len() - 1 } else { line.len() };
        let mut k: usize = 0;
        while k < n
            invariant
                n <= line.len(),
                k <= n,
                copy@ == line@.take(k as int),
            decreases n - k,
        {
            copy.push(line[k]);
            assert(line@.take(k + 1) =~= line@.take(k as int).push(line@[k as int]));
            k += 1;
        }
        assert(copy@ =~= strip_cr(pv[i as int]));
        out.push(copy);
        assert(pv.drop_last().map_values(|l: Seq<char>| strip_cr(l)).take(i + 1) =~= pv.drop_last().map_values(
            |l: Seq<char>| strip_cr(l),
        ).take(i as int).push(strip_cr(pv[i as int])));
        i += 1;
    }
    assert(pv.drop_last().map_values(|l: Seq<char>| strip_cr(l)).take(last as int) =~= pv.drop_last().map_values(
        |l: Seq<char>| strip_cr(l),
    ));
    if parts[last].len() != 0 {
        let mut copy: Vec<char> = Vec::new();
        let line = &parts[last];
        let mut k: usize = 0;
        while k < line.len()
            invariant
                k <= line.len(),
                copy@ == line@.take(k as int),
            decreases line.len() - k,
        {
            copy.push(line[k]);
            assert(line@.take(k + 1) =~= line@.take(k as int).push(line@[k as int]));
            k += 1;
        }
        assert(line@.take(line.len() as int) =~= line@);
        out.push(copy);
    }
    out
}

/// Whether `c` is white space in the Unicode sense, as `char::is_whitespace`
/// decides it.
pub open spec fn is_white(c: char) -> bool {
    let v = c as u32;
    v == 0x20 || (0x09 <= v <= 0x0d) || v == 0x85 || v == 0xa0 || v == 0x1680 || (0x2000 <= v
        <= 0x200a) || v == 0x2028 || v == 0x2029 || v == 0x202f || v == 0x205f || v == 0x3000
}

pub fn is_white_char(c: char) -> (r: bool)
    ensures
        r == is_white(c),
{
    let v = c as u32;
    v == 0x20 || (0x09 <= v && v <= 0x0d) || v == 0x85 || v == 0xa0 || v == 0x1680 || (0x2000 <= v
        && v <= 0x200a) || v == 0x2028 || v == 0x2029 || v == 0x202f || v == 0x205f || v == 0x3000
}

/// `s` without its leading white space.
pub open spec fn trim_start(s: Seq<char>) -> Seq<char>
    decreases s.len(),
{
    if s.len() > 0 && is_white(s[0]) {
        trim_start(s.drop_first())
    } else {
        s
    }
}

/// `s` without its trailing white space.
pub open spec fn trim_end(s: Seq<char>) -> Seq<char>
    decreases s.len(),
{
    if s.len() > 0 && is_white(s.last()) {
        trim_end(s.drop_last())
    } else {
        s
    }
}

/// `s` without leading and trailing white space, as `str::trim` gives it.
pub open spec fn trim(s: Seq<char>) -> Seq<char> {
    trim_end(trim_start(s))
}

/// The characters of `s` from `from` up to `to`.
pub fn slice_chars(s: &[char], from: usize, to: usize) -> (r: Vec<char>)
    requires
        from <= to <= s.len(),
    ensures
        r@ == s@.subrange(from as int, to as int),
{
    let mut r: Vec<char> = Vec::new();
    let mut k = from;
    while k < to
        invariant
            from <= k <= to,
            to <= s.len(),
            r@ == s@.subrange(from as int, k as int),
        decreases to - k,
    {
        r.push(s[k]);
        assert(s@.subrange(from as int, k + 1) =~= s@.subrange(from as int, k as int).push(s@[k as int]));
        k += 1;
    }
    r
}

/// `s` without leading and trailing white space.
pub fn trimmed(s: &[char]) -> (r: Vec<char>)
    ensures
        r@ == trim(s@),
{
    let mut a: usize = 0;
    assert(s@.skip(0) =~= s@);
    while a < s.len() && is_white_char(s[a])
        invariant
            a <= s.len(),
            trim_start(s@) == trim_start(s@.skip(a as int)),
        decreases s.len() - a,
    {
        assert(s@.skip(a as int).drop_first() =~= s@.skip(a + 1));
        a += 1;
    }
    let ghost rest = s@.skip(a as int);
    assert(trim_start(rest) == rest);
    let mut b: usize = s.len();
    assert(rest =~= s@.subrange(a as int, b as int));
    while b > a && is_white_char(s[b - 1])
        invariant
            a <= b <= s.len(),
            trim_end(rest) == trim_end(s@.subrange(a as int, b as int)),
        decreases b - a,
    {
        assert(s@.subrange(a as int, b as int).drop_last() =~= s@.subrange(a as int, b - 1));
        b -= 1;
    }
    slice_chars(s, a, b)
}

/// The rest of `s` after `prefix`, if `s` starts with it.
pub open spec fn strip_prefix(s: Seq<char>, prefix: Seq<char>) -> Option<Seq<char>> {
    if s.len() >= prefix.len() && s.take(prefix.len() as int) == prefix {
        Some(s.skip(prefix.len() as int))
    } else {
        None
    }
}

/// Whether `s` starts with `prefix`.
pub fn has_prefix(s: &[char], prefix: &[char]) -> (r: bool)
    ensures
        r == (strip_prefix(s@, prefix@) is Some),
{
    if s.len() < prefix.len() {
        return false;
    }
    let mut i: usize = 0;
    while i < prefix.len()
        invariant
            i <= prefix.len() <= s.len(),
            forall|j: int| 0 <= j < i ==> s@[j] == prefix@[j],
        decreases prefix.len() - i,
    {
        if s[i] != prefix[i] {
            assert(s@.take(prefix.len() as int)[i as int] != prefix@[i as int]);
            return false;
        }
        i += 1;
    }
    assert(s@.take(prefix.len() as int) =~= prefix@);
    true
}

/// The position of the first occurrence of `c` in `s`.
pub open spec fn find_char(s: Seq<char>, c: char) -> Option<int>
    decreases s.len(),
{
    if s.len() == 0 {
        None
    } else if s[0] == c {
        Some(0)
    } else {
        match find_char(s.drop_first(), c) {
            Some(k) => Some(k + 1),
            None => None,
        }
    }
}

pub open spec fn shifted(o: Option<int>, by: int) -> Option<int> {
    match o {
        Some(k) => Some(k + by),
        None => None,
    }
}

/// Finds the first occurrence of `c` in `s`.
pub fn position_of(s: &[char], c: char) -> (r: Option<usize>)
    ensures
        match r {
            Some(k) => find_char(s@, c) == Some(k as int) && k < s.len() && s@[k as int] == c,
            None => find_char(s@, c) is None,
        },
{
    proof {
        lemma_find_char_bounds(s@, c);
    }
    let mut i: usize = 0;
    assert(s@.skip(0) =~= s@);
    while i < s.len()
        invariant
            i <= s.len(),
            find_char(s@, c) == shifted(find_char(s@.skip(i as int), c), i as int),
        decreases s.len() - i,
    {
        assert(s@.skip(i as int).drop_first() =~= s@.skip(i + 1));
        if s[i] == c {
            return Some(i);
        }
        i += 1;
    }
    None
}

/// The text before and after the first occurrence of `c`, as
/// `str::split_once` gives it.
pub open spec fn split_once(s: Seq<char>, c: char) -> Option<(Seq<char>, Seq<char>)> {
    match find_char(s, c) {
        Some(k) => Some((s.take(k), s.skip(k + 1))),
        None => None,
    }
}

pub proof fn lemma_find_char_bounds(s: Seq<char>, c: char)
    ensures
        find_char(s, c) matches Some(k) ==> 0 <= k < s.len() && s[k] == c,
        find_char(s, c) is None ==> !s.contains(c),
    decreases s.len(),
{
    if s.len() > 0 {
        lemma_find_char_bounds(s.drop_first(), c);
        if find_char(s, c) is None {
            assert forall|j: int| 0 <= j < s.len() implies s[j] != c by {
                if j > 0 {
                    assert(s.drop_first()[j - 1] == s[j]);
                }
            }
        }
    }
}

/// Whether `c` occurs in `s`.
pub fn has_char(s: &[char], c: char) -> (r: bool)
    ensures
        r == s@.contains(c),
{
    let p = position_of(s, c);
    proof {
        lemma_find_char_bounds(s@, c);
    }
    p.is_some()
}

/// Whether all characters of `d` are ASCII digits.
pub open spec fn all_digits(d: Seq<char>) -> bool {
    forall|i: int| 0 <= i < d.len() ==> '0' <= #[trigger] d[i] <= '9'
}

/// The number that a string of decimal digits denotes.
pub open spec fn digits_value(d: Seq<char>) -> nat
    decreases d.len(),
{
    if d.len() == 0 {
        0
    } else {
        digits_value(d.drop_last()) * 10 + ((d.last() as u32) - ('0' as u32)) as nat
    }
}

/// The digits of a number, after an optional `+` sign.
pub open spec fn unsigned_digits(s: Seq<char>) -> Seq<char> {
    if s.len() > 0 && s[0] == '+' {
        s.drop_first()
    } else {
        s
    }
}

/// The unsigned 32-bit number that `s` spells, as `str::parse::<u32>`
/// reads it: an optional `+`, then one or more decimal digits whose value
/// fits.
pub open spec fn parse_u32(s: Seq<char>) -> Option<u32> {
    let d = unsigned_digits(s);
    if d.len() == 0 || !all_digits(d) || digits_value(d) > u32::MAX {
        None
    } else {
        Some(digits_value(d) as u32)
    }
}

proof fn lemma_digits_value_grows(d: Seq<char>, i: int, j: int)
    requires
        0 <= i <= j <= d.len(),
        all_digits(d),
    ensures
        digits_value(d.take(i)) <= digits_value(d.take(j)),
    decreases j - i,
{
    if i < j {
        lemma_digits_value_grows(d, i, j - 1);
        assert(d.take(j).drop_last() =~= d.take(j - 1));
    }
}

/// Reads an unsigned 32-bit number.
pub fn parse_u32_chars(s: &[char]) -> (r: Option<u32>)
    ensures
        r == parse_u32(s@),
{
    let start: usize = if s.len() > 0 && s[0] == '+' { 1 } else { 0 };
    let ghost d = unsigned_digits(s@);
    assert(d =~= s@.skip(start as int));
    if start >= s.len() {
        return None;
    }
    let mut i = start;
    while i < s.len()
        invariant
            start <= i <= s.len(),
            d == s@.skip(start as int),
            d == unsigned_digits(s@),
            forall|j: int| start <= j < i ==> '0' <= #[trigger] s@[j] <= '9',
        decreases s.len() - i,
    {
        if !('0' <= s[i] && s[i] <= '9') {
            assert(d[i - start] == s@[i as int]);
            assert(!all_digits(d));
            return None;
        }
        i += 1;
    }
    assert(all_digits(d)) by {
        assert forall|k: int| 0 <= k < d.len() implies '0' <= #[trigger] d[k] <= '9' by {
            assert(d[k] == s@[k + start]);
        }
    }
    let mut value: u64 = 0;
    let mut k = start;
    assert(d.take(0) =~= Seq::<char>::empty());
    while k < s.len()
        invariant
            start <= k <= s.len(),
            d == s@.skip(start as int),
            d == unsigned_digits(s@),
            all_digits(d),
            value == digits_value(d.take(k - start)),
            value <= u32::MAX,
        decreases s.len() - k,
    {
        assert(d[k - start] == s@[k as int]);
        assert('0' <= d[k - start] <= '9');
        let digit = (s[k] as u32 - '0' as u32) as u64;
        assert(d.take(k - start + 1).drop_last() =~= d.take(k - start));
        assert(d.take(k - start + 1).last() == s@[k as int]);
        value = value * 10 + digit;
        assert(value == digits_value(d.take(k - start + 1)));
        if value > 0xFFFF_FFFFu64 {
            proof {
                lemma_digits_value_grows(d, k - start + 1, d.len() as int);
                assert(d.take(d.len() as int) =~= d);
                assert(digits_value(d) > u32::MAX);
            }
            return None;
        }
        k += 1;
    }
    assert(d.take(s.len() - start) =~= d);
    Some(value as u32)
}


/// Whether `a` sorts before or with `b`: the order of `str`, which compares
/// the UTF-8 bytes and so orders characters by their code points.
pub open spec fn text_le(a: Seq<char>, b: Seq<char>) -> bool
    decreases a.len(),
{
    if a.len() == 0 {
        true
    } else if b.len() == 0 {
        false
    } else if a[0] != b[0] {
        a[0] < b[0]
    } else {
        text_le(a.drop_first(), b.drop_first())
    }
}

/// Whether `a` sorts before or with `b`.
pub fn chars_le(a: &[char], b: &[char]) -> (r: bool)
    ensures
        r == text_le(a@, b@),
{
    let mut i: usize = 0;
    assert(a@.skip(0) =~= a@);
    assert(b@.skip(0) =~= b@);
    while i < a.len() && i < b.len()
        invariant
            i <= a.len(),
            i <= b.len(),
            text_le(a@, b@) == text_le(a@.skip(i as int), b@.skip(i as int)),
        decreases a.len() - i,
    {
        if a[i] != b[i] {
            return a[i] < b[i];
        }
        assert(a@.skip(i as int).drop_first() =~= a@.skip(i + 1));
        assert(b@.skip(i as int).drop_first() =~= b@.skip(i + 1));
        i += 1;
    }
    i == a.len()
}

/// Any two texts are ordered one way or the other.
pub proof fn lemma_text_le_total(a: Seq<char>, b: Seq<char>)
    ensures
        text_le(a, b) || text_le(b, a),
    decreases a.len(),
{
    if a.len() > 0 && b.len() > 0 {
        if a[0] == b[0] {
            lemma_text_le_total(a.drop_first(), b.drop_first());
        }
    }
}

/// The order of texts is transitive.
pub proof fn lemma_text_le_transitive(a: Seq<char>, b: Seq<char>, c: Seq<char>)
    requires
        text_le(a, b),
        text_le(b, c),
    ensures
        text_le(a, c),
    decreases a.len(),
{
    if a.len() > 0 && b.len() > 0 && c.len() > 0 && a[0] == b[0] && b[0] == c[0] {
        lemma_text_le_transitive(a.drop_first(), b.drop_first(), c.drop_first());
    }
}


/// `a` followed by `b`.
pub fn concat_chars(a: &[char], b: &[char]) -> (r: Vec<char>)
    ensures
        r@ == a@ + b@,
{
    let mut r = slice_chars(a, 0, a.len());
    assert(a@.subrange(0, a.len() as int) =~= a@);
    let mut i: usize = 0;
    while i < b.len()
        invariant
            i <= b.len(),
            r@ == a@ + b@.take(i as int),
        decreases b.len() - i,
    {
        r.push(b[i]);
        assert(b@.take(i + 1) =~= b@.take(i as int).push(b@[i as int]));
        assert(a@ + b@.take(i + 1) =~= (a@ + b@.take(i as int)).push(b@[i as int]));
        i += 1;
    }
    assert(b@.take(b.len() as int) =~= b@);
    r
}

/// The pieces that are not empty, in order.
pub open spec fn non_empty(parts: Seq<Seq<char>>) -> Seq<Seq<char>>
    decreases parts.len(),
{
    if parts.len() == 0 {
        seq![]
    } else if parts.last().len() == 0 {
        non_empty(parts.drop_last())
    } else {
        non_empty(parts.drop_last()).push(parts.last())
    }
}

/// The pieces that are not empty.
pub fn keep_non_empty(parts: &Vec<Vec<char>>) -> (r: Vec<Vec<char>>)
    ensures
        char_vecs_view(r@) == non_empty(char_vecs_view(parts@)),
{
    let ghost pv = char_vecs_view(parts@);
    let mut r: Vec<Vec<char>> = Vec::new();
    let mut i: usize = 0;
    while i < parts.len()
        invariant
            i <= parts.len(),
            pv == char_vecs_view(parts@),
            char_vecs_view(r@) == non_empty(pv.take(i as int)),
        decreases parts.len() - i,
    {
        assert(pv.take(i + 1).drop_last() =~= pv.take(i as int));
        assert(pv.take(i + 1).last() == parts@[i as int]@);
        if parts[i].len() > 0 {
            let piece = slice_chars(parts[i].as_slice(), 0, parts[i].len());
            assert(piece@ =~= parts@[i as int]@);
            r.push(piece);
            assert(char_vecs_view(r@) =~= non_empty(pv.take(i as int)).push(piece@));
        }
        i += 1;
    }
    assert(pv.take(parts.len() as int) =~= pv);
    r
}

/// The pieces joined, with `sep` between each two.
pub open spec fn join_with(parts: Seq<Seq<char>>, sep: char) -> Seq<char>
    decreases parts.len(),
{
    if parts.len() == 0 {
        seq![]
    } else if parts.len() == 1 {
        parts[0]
    } else {
        join_with(parts.drop_last(), sep).push(sep) + parts.last()
    }
}

/// Joins the pieces with `sep` between each two.
pub fn join_chars(parts: &Vec<Vec<char>>, sep: char) -> (r: Vec<char>)
    ensures
        r@ == join_with(char_vecs_view(parts@), sep),
{
    let ghost pv = char_vecs_view(parts@);
    if parts.len() == 0 {
        return Vec::new();
    }
    let mut r = slice_chars(parts[0].as_slice(), 0, parts[0].len());
    assert(pv.take(1) =~= seq![pv[0]]);
    assert(r@ =~= join_with(pv.take(1), sep));
    let mut i: usize = 1;
    while i < parts.len()
        invariant
            1 <= i <= parts.len(),
            pv == char_vecs_view(parts@),
            r@ == join_with(pv.take(i as int), sep),
        decreases parts.len() - i,
    {
        assert(pv.take(i + 1).drop_last() =~= pv.take(i as int));
        assert(pv.take(i + 1).last() == parts@[i as int]@);
        r.push(sep);
        r = concat_chars(r.as_slice(), parts[i].as_slice());
        i += 1;
    }
    assert(pv.take(parts.len() as int) =~= pv);
    r
}


/// Texts that sort with each other both ways are equal.
pub proof fn lemma_text_le_antisymmetric(a: Seq<char>, b: Seq<char>)
    requires
        text_le(a, b),
        text_le(b, a),
    ensures
        a == b,
    decreases a.len(),
{
    if a.len() > 0 && b.len() > 0 {
        lemma_text_le_antisymmetric(a.drop_first(), b.drop_first());
        assert(a =~= seq![a[0]] + a.drop_first());
        assert(b =~= seq![b[0]] + b.drop_first());
    } else {
        assert(a =~= b);
    }
}


/// The decimal digits, by value.
pub open spec fn digit_chars() -> Seq<char> {
    seq!['0', '1', '2', '3', '4', '5', '6', '7', '8', '9']
}

/// A number written in decimal, without leading zeros.
pub open spec fn decimal(n: nat) -> Seq<char>
    decreases n,
{
    if n < 10 {
        seq![digit_chars()[n as int]]
    } else {
        decimal(n / 10).push(digit_chars()[(n % 10) as int])
    }
}

fn digit(d: u32) -> (c: char)
    requires
        d < 10,
    ensures
        c == digit_chars()[d as int],
{
    let digits: [char; 10] = ['0', '1', '2', '3', '4', '5', '6', '7', '8', '9'];
    assert(digits@ =~= digit_chars());
    digits[d as usize]
}

/// Writes a number in decimal.
pub fn decimal_chars(n: u32) -> (r: Vec<char>)
    ensures
        r@ == decimal(n as nat),
    decreases n,
{
    if n < 10 {
        vec![digit(n)]
    } else {
        let mut r = decimal_chars(n / 10);
        r.push(digit(n % 10));
        r
    }
}

pub(crate) proof fn lemma_split_on_whole(b: Seq<char>, sep: char)
    requires
        !b.contains(sep),
    ensures
        split_on(b, sep) == seq![b],
    decreases b.len(),
{
    if b.len() > 0 {
        assert(!b.drop_last().contains(sep)) by {
            if b.drop_last().contains(sep) {
                let k = choose|k: int| 0 <= k < b.drop_last().len() && b.drop_last()[k] == sep;
                assert(b[k] == sep);
            }
        }
        lemma_split_on_whole(b.drop_last(), sep);
        assert(b.last() != sep) by {
            assert(b[b.len() - 1] == b.last());
        }
        assert(b.drop_last().push(b.last()) =~= b);
        assert(seq![b.drop_last()].update(0, b.drop_last().push(b.last())) =~= seq![b]);
    } else {
        assert(b =~= Seq::<char>::empty());
    }
}

pub(crate) proof fn lemma_split_on_at_sep(a: Seq<char>, b: Seq<char>, sep: char)
    ensures
        split_on(a.push(sep) + b, sep) == split_on(a, sep) + split_on(b, sep),
    decreases b.len(),
{
    let s = a.push(sep) + b;
    if b.len() == 0 {
        assert(s =~= a.push(sep));
        assert(a.push(sep).drop_last() =~= a);
        assert(split_on(a, sep).push(seq![]) =~= split_on(a, sep) + seq![Seq::<char>::empty()]);
    } else {
        lemma_split_on_at_sep(a, b.drop_last(), sep);
        assert(s.drop_last() =~= a.push(sep) + b.drop_last());
        assert(s.last() == b.last());
        let pa = split_on(a, sep);
        let pb = split_on(b.drop_last(), sep);
        assert(pb.len() >= 1) by {
            lemma_split_on_nonempty(b.drop_last(), sep);
        }
        if b.last() == sep {
            assert((pa + pb).push(seq![]) =~= pa + pb.push(seq![]));
        } else {
            let joined = pa + pb;
            assert(joined.last() == pb.last());
            assert(joined.update(joined.len() - 1, joined.last().push(b.last())) =~= pa + pb.update(
                pb.len() - 1,
                pb.last().push(b.last()),
            ));
        }
    }
}

proof fn lemma_split_on_nonempty(s: Seq<char>, sep: char)
    ensures
        split_on(s, sep).len() >= 1,
    decreases s.len(),
{
    if s.len() > 0 {
        lemma_split_on_nonempty(s.drop_last(), sep);
    }
}

/// Pieces that hold no `sep`, joined with `sep`, split back on `sep` into
/// exactly those pieces.
pub proof fn lemma_join_splits_back(parts: Seq<Seq<char>>, sep: char)
    requires
        parts.len() >= 1,
        forall|k: int| 0 <= k < parts.len() ==> !(#[trigger] parts[k]).contains(sep),
    ensures
        split_on(join_with(parts, sep), sep) == parts,
    decreases parts.len(),
{
    if parts.len() == 1 {
        lemma_split_on_whole(parts[0], sep);
        assert(seq![parts[0]] =~= parts);
    } else {
        let front = parts.drop_last();
        assert forall|k: int| 0 <= k < front.len() implies !(#[trigger] front[k]).contains(sep) by {
            assert(front[k] == parts[k]);
        }
        lemma_join_splits_back(front, sep);
        assert(!parts[parts.len() - 1].contains(sep));
        lemma_split_on_whole(parts.last(), sep);
        lemma_split_on_at_sep(join_with(front, sep), parts.last(), sep);
        assert(front + seq![parts.last()] =~= parts);
    }
}

pub(crate) proof fn lemma_decimal_digits(n: nat)
    ensures
        decimal(n).len() > 0,
        decimal(n)[0] != '+',
        all_digits(decimal(n)),
        digits_value(decimal(n)) == n,
    decreases n,
{
    let d = decimal(n);
    if n < 10 {
        assert(digit_chars()[n as int] as u32 - '0' as u32 == n) by {
            if n == 0 {} else if n == 1 {} else if n == 2 {} else if n == 3 {} else if n == 4 {}
            else if n == 5 {} else if n == 6 {} else if n == 7 {} else if n == 8 {} else {}
        }
        assert(d.drop_last() =~= Seq::<char>::empty());
        assert(d.last() == digit_chars()[n as int]);
        assert(digits_value(d.drop_last()) == 0);
        assert(digits_value(d) == digits_value(d.drop_last()) * 10 + ((d.last() as u32) - ('0' as u32)) as nat);
    } else {
        lemma_decimal_digits(n / 10);
        let front = decimal(n / 10);
        let k = n % 10;
        assert(digit_chars()[k as int] as u32 - '0' as u32 == k) by {
            if k == 0 {} else if k == 1 {} else if k == 2 {} else if k == 3 {} else if k == 4 {}
            else if k == 5 {} else if k == 6 {} else if k == 7 {} else if k == 8 {} else {}
        }
        assert(d.drop_last() =~= front);
        assert(d[0] == front[0]);
        assert forall|i: int| 0 <= i < d.len() implies '0' <= #[trigger] d[i] <= '9' by {
            if i < front.len() {
                assert(d[i] == front[i]);
            }
        }
        assert(d.last() == digit_chars()[k as int]);
        assert(digits_value(d) == digits_value(d.drop_last()) * 10 + ((d.last() as u32) - ('0' as u32)) as nat);
        assert(digits_value(d) == (n / 10) * 10 + k);
        assert((n / 10) * 10 + n % 10 == n) by (nonlinear_arith);
    }
}

/// A number written in decimal reads back as that number.
pub proof fn lemma_decimal_reads_back(n: u32)
    ensures
        parse_u32(decimal(n as nat)) == Some(n),
{
    lemma_decimal_digits(n as nat);
}

/// A text sorts before or with every text that continues it, and two texts
/// that agree up to some point and then differ sort by the first character
/// in which they differ.
pub proof fn lemma_text_le_by_first_difference(
    p: Seq<char>,
    a: Seq<char>,
    b: Seq<char>,
    c: char,
    d: char,
)
    ensures
        text_le(p, p + a),
        c < d ==> text_le(p.push(c) + a, p.push(d) + b) && !text_le(p.push(d) + b, p.push(c) + a),
    decreases p.len(),
{
    if p.len() > 0 {
        lemma_text_le_by_first_difference(p.drop_first(), a, b, c, d);
        assert((p + a).drop_first() =~= p.drop_first() + a);
        assert((p.push(c) + a).drop_first() =~= p.drop_first().push(c) + a);
        assert((p.push(d) + b).drop_first() =~= p.drop_first().push(d) + b);
        assert((p + a)[0] == p[0]);
        assert((p.push(c) + a)[0] == p[0]);
        assert((p.push(d) + b)[0] == p[0]);
    } else {
        assert(p.push(c) + a =~= seq![c] + a);
        assert(p.push(d) + b =~= seq![d] + b);
        assert((seq![c] + a)[0] == c);
        assert((seq![d] + b)[0] == d);
    }
}

proof fn lemma_trim_start_white(l: Seq<char>, w: Seq<char>)
    requires
        forall|i: int| 0 <= i < l.len() ==> is_white(#[trigger] l[i]),
        w.len() == 0 || !is_white(w[0]),
    ensures
        trim_start(l + w) == w,
    decreases l.len(),
{
    if l.len() > 0 {
        assert((l + w)[0] == l[0]);
        assert((l + w).drop_first() =~= l.drop_first() + w);
        lemma_trim_start_white(l.drop_first(), w);
    } else {
        assert(l + w =~= w);
    }
}

proof fn lemma_trim_end_white(w: Seq<char>, r: Seq<char>)
    requires
        forall|i: int| 0 <= i < r.len() ==> is_white(#[trigger] r[i]),
        w.len() == 0 || !is_white(w.last()),
    ensures
        trim_end(w + r) == w,
    decreases r.len(),
{
    if r.len() > 0 {
        assert((w + r).last() == r.last());
        assert(is_white(r[r.len() - 1]));
        assert((w + r).drop_last() =~= w + r.drop_last());
        lemma_trim_end_white(w, r.drop_last());
    } else {
        assert(w + r =~= w);
    }
}

/// Trimming removes exactly the white space around a text: a text that
/// neither starts nor ends with white space comes back from between any
/// runs of white space as it was.
pub proof fn lemma_trim_drops_surrounding_white(l: Seq<char>, w: Seq<char>, r: Seq<char>)
    requires
        forall|i: int| 0 <= i < l.len() ==> is_white(#[trigger] l[i]),
        forall|i: int| 0 <= i < r.len() ==> is_white(#[trigger] r[i]),
        w.len() > 0 ==> !is_white(w[0]) && !is_white(w.last()),
    ensures
        trim(l + w + r) == w,
{
    if w.len() > 0 {
        lemma_trim_start_white(l, w + r);
        assert(l + w + r =~= l + (w + r));
        assert((w + r)[0] == w[0]);
        lemma_trim_end_white(w, r);
    } else {
        assert forall|i: int| 0 <= i < (l + r).len() implies is_white(#[trigger] (l + r)[i]) by {
            if i >= l.len() {
                assert((l + r)[i] == r[i - l.len()]);
            }
        }
        lemma_trim_start_white(l + r, w);
        assert(l + w + r =~= (l + r) + w);
        lemma_trim_end_white(w, Seq::<char>::empty());
        assert(w + Seq::<char>::empty() =~= w);
    }
}

/// Lines that hold no line break and do not end in a carriage return,
/// joined by line breaks, with or without a final one, read back as those
/// lines.
pub proof fn lemma_lines_read_back(ls: Seq<Seq<char>>)
    requires
        ls.len() >= 1,
        ls.last().len() > 0,
        forall|k: int| 0 <= k < ls.len() ==> !(#[trigger] ls[k]).contains('\n') && !(ls[k].len()
            > 0 && ls[k].last() == '\r'),
    ensures
        lines(join_with(ls, '\n')) == ls,
        lines(join_with(ls, '\n').push('\n')) == ls,
{
    lemma_join_splits_back(ls, '\n');
    assert(ls.drop_last().map_values(|l: Seq<char>| strip_cr(l)) =~= ls.drop_last()) by {
        assert forall|k: int| 0 <= k < ls.len() - 1 implies #[trigger] strip_cr(ls[k]) == ls[k] by {}
    }
    assert(ls.drop_last().push(ls.last()) =~= ls);
    assert(ls.last() == ls[ls.len() - 1]);
    let more = ls.push(Seq::<char>::empty());
    assert forall|k: int| 0 <= k < more.len() implies !(#[trigger] more[k]).contains('\n') by {
        if k < ls.len() {
            assert(more[k] == ls[k]);
        }
    }
    lemma_join_splits_back(more, '\n');
    assert(more.drop_last() =~= ls);
    assert(more.last() == Seq::<char>::empty());
    assert(join_with(more, '\n') == join_with(more.drop_last(), '\n').push('\n') + more.last());
    assert(join_with(ls, '\n').push('\n') + Seq::<char>::empty() =~= join_with(ls, '\n').push('\n'));
    assert(join_with(more, '\n') =~= join_with(ls, '\n').push('\n'));
    assert(ls.map_values(|l: Seq<char>| strip_cr(l)) =~= ls) by {
        assert forall|k: int| 0 <= k < ls.len() implies #[trigger] strip_cr(ls[k]) == ls[k] by {}
    }
}

/// A text splits once at the first occurrence of `c`: into what comes
/// before it and everything after it, later occurrences included.
pub proof fn lemma_split_once_at_first(before: Seq<char>, after: Seq<char>, c: char)
    requires
        !before.contains(c),
    ensures
        find_char(before.push(c) + after, c) == Some(before.len() as int),
        split_once(before.push(c) + after, c) == Some((before, after)),
    decreases before.len(),
{
    let s = before.push(c) + after;
    if before.len() == 0 {
        assert(s[0] == c);
    } else {
        assert(!before.drop_first().contains(c)) by {
            if before.drop_first().contains(c) {
                let j = choose|j: int| 0 <= j < before.drop_first().len() && before.drop_first()[j] == c;
                assert(before[j + 1] == c);
            }
        }
        lemma_split_once_at_first(before.drop_first(), after, c);
        assert(s.drop_first() =~= before.drop_first().push(c) + after);
        assert(s[0] == before[0]);
        assert(before[0] != c);
    }
    assert(s.take(before.len() as int) =~= before);
    assert(s.skip(before.len() as int + 1) =~= after);
}

} // verus!
