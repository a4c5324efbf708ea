//! Character-level text handling: reading strings, sanitizing labels and
//! graph names, decimal digits and line normalization.
use vstd::prelude::*;

verus! {

/// Whether `c` is an ASCII character.
pub open spec fn is_ascii_char(c: char) -> bool {
    (c as u32) < 128
}

/// The characters of `s`, in order.
pub fn chars_of(s: &str) -> (r: Vec<char>)
    ensures
        r@ == s@,
{
    let mut v: Vec<char> = Vec::new();
    for c in it: s.chars()
        invariant
            v@ == it.seq().take(it.index() as int),
    {
        v.push(c);
    }
    v
}


/// A label with its non-ASCII characters removed and each quote escaped by
/// a backslash.
pub open spec fn sanitize_label_spec(s: Seq<char>) -> Seq<char>
    decreases s.len(),
{
    if s.len() == 0 {
        Seq::empty()
    } else {
        let rest = sanitize_label_spec(s.drop_last());
        let c = s.last();
        if !is_ascii_char(c) {
            rest
        } else if c == '"' {
            rest + seq!['\\', '"']
        } else {
            rest.push(c)
        }
    }
}

/// A graph name with its spaces and non-ASCII characters removed.
pub open spec fn sanitize_name_spec(s: Seq<char>) -> Seq<char>
    decreases s.len(),
{
    if s.len() == 0 {
        Seq::empty()
    } else {
        let rest = sanitize_name_spec(s.drop_last());
        let c = s.last();
        if c == ' ' || !is_ascii_char(c) {
            rest
        } else {
            rest.push(c)
        }
    }
}

/// Appends the sanitized form of `s` to `out`.
pub fn push_sanitized_label(out: &mut Vec<char>, s: &str)
    ensures
        final(out)@ == old(out)@ + sanitize_label_spec(s@),
{
    let cs = chars_of(s);
    let ghost start = out@;
    let mut i: usize = 0;
    while i < cs.len()
        invariant
            cs@ == s@,
            i <= cs.len(),
            out@ == start + sanitize_label_spec(cs@.take(i as int)),
        decreases cs.len() - i,
    {
        let c = cs[i];
        assert(cs@.take(i + 1).drop_last() == cs@.take(i as int));
        if (c as u32) < 128 {
            if c == '"' {
                out.push('\\');
                out.push('"');
            } else {
                out.push(c);
            }
        }
        i = i + 1;
    }
    assert(cs@.take(i as int) == cs@);
}

/// Returns `s` with its non-ASCII characters removed and each quote escaped
/// by a backslash, ready to stand inside a quoted DOT attribute value.
pub fn sanitize(s: &str) -> (r: String)
    ensures
        r@ == sanitize_label_spec(s@),
{
    let mut out: Vec<char> = Vec::new();
    push_sanitized_label(&mut out, s);
    string_of(&out)
}

/// Appends `s` with its spaces and non-ASCII characters removed to `out`.
pub fn push_sanitized_name(out: &mut Vec<char>, s: &str)
    ensures
        final(out)@ == old(out)@ + sanitize_name_spec(s@),
{
    let cs = chars_of(s);
    let ghost start = out@;
    let mut i: usize = 0;
    while i < cs.len()
        invariant
            cs@ == s@,
            i <= cs.len(),
            out@ == start + sanitize_name_spec(cs@.take(i as int)),
        decreases cs.len() - i,
    {
        let c = cs[i];
        assert(cs@.take(i + 1).drop_last() == cs@.take(i as int));
        if c != ' ' && (c as u32) < 128 {
            out.push(c);
        }
        i = i + 1;
    }
    assert(cs@.take(i as int) == cs@);
}

/// Sanitizing a graph name twice gives what sanitizing it once gives.
pub proof fn lemma_sanitize_name_idempotent(s: Seq<char>)
    ensures
        sanitize_name_spec(sanitize_name_spec(s)) == sanitize_name_spec(s),
    decreases s.len(),
{
    if s.len() > 0 {
        let rest = sanitize_name_spec(s.drop_last());
        lemma_sanitize_name_idempotent(s.drop_last());
        let c = s.last();
        if !(c == ' ' || !is_ascii_char(c)) {
            assert(rest.push(c).drop_last() == rest);
        }
    }
}

/// Sanitizing a label that holds no quote twice gives what sanitizing it
/// once gives.
pub proof fn lemma_sanitize_label_idempotent(s: Seq<char>)
    requires
        !s.contains('"'),
    ensures
        sanitize_label_spec(sanitize_label_spec(s)) == sanitize_label_spec(s),
    decreases s.len(),
{
    if s.len() > 0 {
        let rest = sanitize_label_spec(s.drop_last());
        assert(!s.drop_last().contains('"')) by {
            if s.drop_last().contains('"') {
                let i = choose|i: int| 0 <= i < s.drop_last().len() && s.drop_last()[i] == '"';
                assert(s[i] == '"');
            }
        }
        lemma_sanitize_label_idempotent(s.drop_last());
        let c = s.last();
        assert(c != '"') by {
            assert(s[s.len() - 1] == c);
        }
        if is_ascii_char(c) {
            assert(rest.push(c).drop_last() == rest);
        }
    }
}

/// In a sanitized label every quote directly follows a backslash.
pub proof fn lemma_sanitized_quotes_escaped(s: Seq<char>)
    ensures
        forall|i: int|
            0 <= i < sanitize_label_spec(s).len() && #[trigger] sanitize_label_spec(s)[i] == '"'
                ==> i > 0 && sanitize_label_spec(s)[i - 1] == '\\',
    decreases s.len(),
{
    if s.len() > 0 {
        lemma_sanitized_quotes_escaped(s.drop_last());
        let rest = sanitize_label_spec(s.drop_last());
        let out = sanitize_label_spec(s);
        assert forall|i: int| 0 <= i < out.len() && #[trigger] out[i] == '"' implies i > 0 && out[i
            - 1] == '\\' by {
            if i < rest.len() {
                assert(out[i] == rest[i]);
                assert(rest[i] == '"');
                assert(out[i - 1] == rest[i - 1]);
            }
        }
    }
}

/// The decimal digit for `d`.
pub open spec fn digit_char(d: nat) -> char {
    if d == 0 { '0' }
    else if d == 1 { '1' }
    else if d == 2 { '2' }
    else if d == 3 { '3' }
    else if d == 4 { '4' }
    else if d == 5 { '5' }
    else if d == 6 { '6' }
    else if d == 7 { '7' }
    else if d == 8 { '8' }
    else { '9' }
}

/// The decimal numeral of `n`, without leading zeros.
pub open spec fn decimal(n: nat) -> Seq<char>
    decreases n,
{
    if n < 10 {
        seq![digit_char(n)]
    } else {
        decimal(n / 10).push(digit_char(n % 10))
    }
}

/// A decimal numeral holds digits only.
pub proof fn lemma_decimal_digits(n: nat)
    ensures
        forall|i: int| 0 <= i < decimal(n).len() ==> '0' <= #[trigger] decimal(n)[i] <= '9',
    decreases n,
{
    if n >= 10 {
        lemma_decimal_digits(n / 10);
        assert forall|i: int| 0 <= i < decimal(n).len() implies '0' <= #[trigger] decimal(n)[i]
            <= '9' by {
            if i < decimal(n / 10).len() {
                assert(decimal(n)[i] == decimal(n / 10)[i]);
            }
        }
    }
}

fn digit(d: u64) -> (c: char)
    requires
        d < 10,
    ensures
        c == digit_char(d as nat),
{
    if d == 0 { '0' }
    else if d == 1 { '1' }
    else if d == 2 { '2' }
    else if d == 3 { '3' }
    else if d == 4 { '4' }
    else if d == 5 { '5' }
    else if d == 6 { '6' }
    else if d == 7 { '7' }
    else if d == 8 { '8' }
    else { '9' }
}

/// Appends the decimal numeral of `n` to `out`.
pub fn push_decimal(out: &mut Vec<char>, n: u64)
    ensures
        final(out)@ == old(out)@ + decimal(n as nat),
    decreases n,
{
    if n >= 10 {
        push_decimal(out, n / 10);
    }
    out.push(digit(n % 10));
    proof {
        if n < 10 {
            assert(old(out)@ + decimal(n as nat) == old(out)@.push(digit_char(n as nat)));
        } else {
            assert((old(out)@ + decimal((n / 10) as nat)).push(digit_char((n % 10) as nat))
                == old(out)@ + decimal(n as nat));
        }
    }
}

/// Appends the characters of `s` to `out`.
pub fn push_str(out: &mut Vec<char>, s: &str)
    ensures
        final(out)@ == old(out)@ + s@,
{
    let cs = chars_of(s);
    let ghost start = out@;
    let mut i: usize = 0;
    while i < cs.len()
        invariant
            cs@ == s@,
            i <= cs.len(),
            out@ == start + cs@.take(i as int),
        decreases cs.len() - i,
    {
        out.push(cs[i]);
        assert(cs@.take(i + 1) == cs@.take(i as int).push(cs@[i as int]));
        i = i + 1;
    }
    assert(cs@.take(i as int) == cs@);
}

/// Relies on `String`'s `FromIterator<char>`: the string holds the characters
/// in order.
#[verifier::external_body]
pub(crate) fn string_of(v: &Vec<char>) -> (r: String)
    ensures
        r@ == v@,
{
    v.iter().collect()
}


/// Whether `c` is an ASCII character that `char::is_whitespace` accepts.
pub open spec fn is_space(c: char) -> bool {
    c == ' ' || ('\t' <= c && c <= '\r')
}

/// `l` without its leading white space.
pub open spec fn trim_front(l: Seq<char>) -> Seq<char>
    decreases l.len(),
{
    if l.len() > 0 && is_space(l[0]) {
        trim_front(l.drop_first())
    } else {
        l
    }
}

/// `l` without its trailing white space.
pub open spec fn trim_back(l: Seq<char>) -> Seq<char>
    decreases l.len(),
{
    if l.len() > 0 && is_space(l.last()) {
        trim_back(l.drop_last())
    } else {
        l
    }
}

/// What a line contributes to a normalized text: the line trimmed, or
/// nothing where that is a bare `;`.
pub open spec fn kept_line(l: Seq<char>) -> Seq<char> {
    let t = trim_back(trim_front(l));
    if t == seq![';'] {
        Seq::empty()
    } else {
        t
    }
}

/// The pieces of `s` between line feeds (one more than there are line feeds).
pub open spec fn split_lines(s: Seq<char>) -> Seq<Seq<char>>
    decreases s.len(),
{
    if s.len() == 0 {
        seq![Seq::empty()]
    } else {
        let ls = split_lines(s.drop_last());
        if s.last() == '\n' {
            ls.push(Seq::empty())
        } else {
            ls.update(ls.len() - 1, ls.last().push(s.last()))
        }
    }
}

/// The kept forms of `ls`, concatenated.
pub open spec fn join_kept(ls: Seq<Seq<char>>) -> Seq<char>
    decreases ls.len(),
{
    if ls.len() == 0 {
        Seq::empty()
    } else {
        join_kept(ls.drop_last()) + kept_line(ls.last())
    }
}

/// `s` cut into lines, each trimmed, bare `;` lines dropped, and the rest
/// joined with no separator.
pub open spec fn normalize_spec(s: Seq<char>) -> Seq<char> {
    join_kept(split_lines(s))
}

fn is_space_exec(c: char) -> (r: bool)
    ensures
        r == is_space(c),
{
    c == ' ' || ('\t' <= c && c <= '\r')
}

/// Appends the kept form of the line `raw[a..b]` to `out`.
fn push_kept_line(out: &mut Vec<char>, raw: &Vec<char>, a: usize, b: usize)
    requires
        a <= b <= raw.len(),
    ensures
        final(out)@ == old(out)@ + kept_line(raw@.subrange(a as int, b as int)),
{
    let mut lo: usize = a;
    while lo < b && is_space_exec(raw[lo])
        invariant
            a <= lo <= b <= raw.len(),
            trim_front(raw@.subrange(a as int, b as int)) == trim_front(
                raw@.subrange(lo as int, b as int),
            ),
        decreases b - lo,
    {
        assert(raw@.subrange(lo as int, b as int).drop_first() == raw@.subrange(
            lo + 1,
            b as int,
        ));
        lo = lo + 1;
    }
    let mut hi: usize = b;
    while hi > lo && is_space_exec(raw[hi - 1])
        invariant
            a <= lo <= hi <= b <= raw.len(),
            trim_back(raw@.subrange(lo as int, b as int)) == trim_back(
                raw@.subrange(lo as int, hi as int),
            ),
        decreases hi - lo,
    {
        assert(raw@.subrange(lo as int, hi as int).drop_last() == raw@.subrange(
            lo as int,
            hi - 1,
        ));
        hi = hi - 1;
    }
    let ghost t = raw@.subrange(lo as int, hi as int);
    assert(trim_back(trim_front(raw@.subrange(a as int, b as int))) == t);
    if hi - lo == 1 && raw[lo] == ';' {
        assert(t == seq![';']);
    } else {
        assert(t != seq![';'] ) by {
            if t == seq![';'] {
                assert(t.len() == 1 && t[0] == ';');
            }
        }
        let ghost start = out@;
        let mut i: usize = lo;
        while i < hi
            invariant
                lo <= i <= hi <= raw.len(),
                out@ == start + raw@.subrange(lo as int, i as int),
            decreases hi - i,
        {
            out.push(raw[i]);
            assert(raw@.subrange(lo as int, i + 1) == raw@.subrange(lo as int, i as int).push(
                raw@[i as int],
            ));
            i = i + 1;
        }
    }
}

/// Normalizes a text line by line: see `normalize_spec`.
pub fn normalize(raw: &Vec<char>) -> (r: Vec<char>)
    ensures
        r@ == normalize_spec(raw@),
{
    let mut out: Vec<char> = Vec::new();
    let mut start: usize = 0;
    let mut i: usize = 0;
    let ghost mut done: Seq<Seq<char>> = Seq::empty();
    assert(raw@.take(0) == Seq::<char>::empty());
    assert(raw@.subrange(0, 0) == Seq::<char>::empty());
    assert(done.push(Seq::<char>::empty()) == seq![Seq::<char>::empty()]);
    while i < raw.len()
        invariant
            start <= i <= raw.len(),
            split_lines(raw@.take(i as int)) == done.push(raw@.subrange(start as int, i as int)),
            out@ == join_kept(done),
        decreases raw.len() - i,
    {
        let ghost prev = raw@.take(i as int);
        assert(raw@.take(i + 1).drop_last() == prev);
        if raw[i] == '\n' {
            push_kept_line(&mut out, raw, start, i);
            proof {
                let d2 = done.push(raw@.subrange(start as int, i as int));
                assert(d2.drop_last() == done);
                done = d2;
                assert(raw@.subrange(i + 1, i + 1) == Seq::<char>::empty());
            }
            start = i + 1;
        } else {
            proof {
                assert(raw@.subrange(start as int, i + 1) == raw@.subrange(
                    start as int,
                    i as int,
                ).push(raw@[i as int]));
                assert(done.push(raw@.subrange(start as int, i as int)).update(
                    done.len() as int,
                    raw@.subrange(start as int, i + 1),
                ) == done.push(raw@.subrange(start as int, i + 1)));
            }
        }
        i = i + 1;
    }
    push_kept_line(&mut out, raw, start, i);
    proof {
        assert(raw@.take(i as int) == raw@);
        let d2 = done.push(raw@.subrange(start as int, i as int));
        assert(d2.drop_last() == done);
    }
    out
}

} // verus!
