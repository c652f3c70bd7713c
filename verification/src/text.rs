//! Text primitives over `Seq<char>` models.
//!
//! Every string in this crate is specified through its view, a sequence of
//! Unicode scalar values. The executable functions here walk a `Vec<char>`
//! copy of their input and hand back slices of the string they were given.

use vstd::prelude::*;

verus! {

/// Whether `c` carries the Unicode `White_Space` property, as the standard
/// library decides it.
pub uninterp spec fn white_space(c: char) -> bool;

/// Calls `char::is_whitespace`. The result is a function of the character
/// alone; the contract gives it the name [`white_space`] and claims nothing
/// about which characters have the property.
#[verifier::external_body]
pub(crate) fn is_white_space(c: char) -> (b: bool)
    ensures
        b == white_space(c),
{
    c.is_whitespace()
}

/// `s` without its longest prefix of white space.
pub open spec fn trimmed_start(s: Seq<char>) -> Seq<char>
    decreases s.len(),
{
    if s.len() > 0 && white_space(s[0]) {
        trimmed_start(s.drop_first())
    } else {
        s
    }
}

/// `s` without its longest suffix of white space.
pub open spec fn trimmed_end(s: Seq<char>) -> Seq<char>
    decreases s.len(),
{
    if s.len() > 0 && white_space(s.last()) {
        trimmed_end(s.drop_last())
    } else {
        s
    }
}

/// `s` with leading and trailing white space removed.
pub open spec fn trimmed(s: Seq<char>) -> Seq<char> {
    trimmed_end(trimmed_start(s))
}

/// A string is blank when nothing is left after trimming.
pub open spec fn blank(s: Seq<char>) -> bool {
    trimmed(s).len() == 0
}

proof fn lemma_trimmed_start(s: Seq<char>) -> (a: int)
    ensures
        0 <= a <= s.len(),
        trimmed_start(s) == s.skip(a),
        forall|i: int| 0 <= i < a ==> white_space(s[i]),
        a < s.len() ==> !white_space(s[a]),
    decreases s.len(),
{
    if s.len() > 0 && white_space(s[0]) {
        let rest = s.drop_first();
        let a = lemma_trimmed_start(rest);
        assert(rest.skip(a) =~= s.skip(a + 1));
        assert forall|i: int| 0 <= i < a + 1 implies white_space(s[i]) by {
            if i > 0 {
                assert(s[i] == rest[i - 1]);
            }
        }
        a + 1
    } else {
        assert(s.skip(0) =~= s);
        0
    }
}

proof fn lemma_trimmed_end(s: Seq<char>) -> (b: int)
    ensures
        0 <= b <= s.len(),
        trimmed_end(s) == s.take(b),
        forall|i: int| b <= i < s.len() ==> white_space(s[i]),
        b > 0 ==> !white_space(s[b - 1]),
    decreases s.len(),
{
    if s.len() > 0 && white_space(s.last()) {
        let front = s.drop_last();
        let b = lemma_trimmed_end(front);
        assert(front.take(b) =~= s.take(b));
        assert forall|i: int| b <= i < s.len() implies white_space(s[i]) by {
            if i < front.len() {
                assert(s[i] == front[i]);
            }
        }
        b
    } else {
        assert(s.take(s.len() as int) =~= s);
        s.len() as int
    }
}

/// What trimming leaves, said directly: a slice of `s` with nothing but
/// white space before it and behind it, and, unless it is empty, with
/// something other than white space at its start and at its end. The bounds
/// of the slice are returned.
pub proof fn law_trimmed(s: Seq<char>) -> (bounds: (int, int))
    ensures
        0 <= bounds.0 <= bounds.1 <= s.len(),
        trimmed(s) == s.subrange(bounds.0, bounds.1),
        forall|i: int| 0 <= i < bounds.0 ==> white_space(s[i]),
        forall|i: int| bounds.1 <= i < s.len() ==> white_space(s[i]),
        bounds.0 < bounds.1 ==> !white_space(s[bounds.0]) && !white_space(s[bounds.1 - 1]),
{
    let a = lemma_trimmed_start(s);
    let b = lemma_trimmed_end(s.skip(a));
    assert(s.skip(a).take(b) =~= s.subrange(a, a + b));
    assert forall|i: int| a + b <= i < s.len() implies white_space(s[i]) by {
        assert(s[i] == s.skip(a)[i - a]);
    }
    if b > 0 {
        assert(s.skip(a)[b - 1] == s[a + b - 1]);
    }
    (a, a + b)
}

/// A string is blank exactly when it holds nothing but white space.
pub proof fn law_blank(s: Seq<char>)
    ensures
        blank(s) <==> forall|i: int| 0 <= i < s.len() ==> white_space(s[i]),
{
    let (a, b) = law_trimmed(s);
    if forall|i: int| 0 <= i < s.len() ==> white_space(s[i]) {
        if a < b {
            assert(white_space(s[a]));
        }
    }
}

/// Trimming changes nothing in a string that neither starts nor ends with
/// white space.
pub proof fn law_trimmed_unchanged(s: Seq<char>)
    requires
        s.len() > 0 ==> !white_space(s[0]) && !white_space(s.last()),
    ensures
        trimmed(s) == s,
{
    let (a, b) = law_trimmed(s);
    if s.len() > 0 {
        if a > 0 {
            assert(white_space(s[0]));
        }
        if b < s.len() {
            assert(white_space(s[s.len() - 1]));
        }
    }
    assert(s.subrange(a, b) =~= s);
}

/// The characters of `s`, in order.
pub fn chars_of(s: &str) -> (v: Vec<char>)
    ensures
        v@ == s@,
{
    let mut v: Vec<char> = Vec::new();
    for c in it: s.chars()
        invariant
            it.seq() == s@,
            v@ == s@.take(it.index() as int),
    {
        v.push(c);
    }
    v
}

/// The bounds of the trimmed part of `cs[lo..hi]`.
pub fn trim_bounds(cs: &Vec<char>, lo: usize, hi: usize) -> (r: (usize, usize))
    requires
        lo <= hi <= cs.len(),
    ensures
        lo <= r.0 <= r.1 <= hi,
        cs@.subrange(r.0 as int, r.1 as int) == trimmed(cs@.subrange(lo as int, hi as int)),
{
    let ghost part = cs@.subrange(lo as int, hi as int);
    let mut i: usize = lo;
    assert(part.skip(0) =~= part);
    while i < hi && is_white_space(cs[i])
        invariant
            lo <= i <= hi <= cs.len(),
            part == cs@.subrange(lo as int, hi as int),
            trimmed_start(part) == trimmed_start(part.skip(i - lo)),
        decreases hi - i,
    {
        assert(part.skip(i - lo).drop_first() =~= part.skip(i - lo + 1));
        i += 1;
    }
    assert(trimmed_start(part) == part.skip(i - lo));
    let mut j: usize = hi;
    assert(part.skip(i - lo) =~= cs@.subrange(i as int, j as int));
    while j > i && is_white_space(cs[j - 1])
        invariant
            lo <= i <= j <= hi <= cs.len(),
            part == cs@.subrange(lo as int, hi as int),
            trimmed(part) == trimmed_end(cs@.subrange(i as int, j as int)),
        decreases j,
    {
        assert(cs@.subrange(i as int, j as int).drop_last() =~= cs@.subrange(
            i as int,
            j as int - 1,
        ));
        j -= 1;
    }
    (i, j)
}

/// `s` with leading and trailing white space removed, as `str::trim` gives it.
pub fn trim(s: &str) -> (r: &str)
    ensures
        r@ == trimmed(s@),
{
    let cs = chars_of(s);
    assert(cs@.subrange(0, cs.len() as int) =~= cs@);
    let (i, j) = trim_bounds(&cs, 0, cs.len());
    s.substring_char(i, j)
}

/// Whether nothing is left of `s` after trimming.
pub fn is_blank(s: &str) -> (r: bool)
    ensures
        r == blank(s@),
{
    trim(s).is_empty()
}

/// The index of the first `c` in `s`, or the length of `s` if there is none.
pub open spec fn position(s: Seq<char>, c: char) -> int
    decreases s.len(),
{
    if s.len() == 0 || s[0] == c {
        0
    } else {
        1 + position(s.drop_first(), c)
    }
}

/// `position` is the least index that holds `c`.
pub proof fn lemma_position(s: Seq<char>, c: char)
    ensures
        0 <= position(s, c) <= s.len(),
        position(s, c) < s.len() ==> s[position(s, c)] == c,
        forall|i: int| 0 <= i < position(s, c) ==> s[i] != c,
        position(s, c) < s.len() <==> s.contains(c),
    decreases s.len(),
{
    if s.len() == 0 {
    } else if s[0] == c {
        assert(s.contains(c));
    } else {
        let rest = s.drop_first();
        lemma_position(rest, c);
        assert forall|i: int| 0 <= i < position(s, c) implies s[i] != c by {
            if i > 0 {
                assert(rest[i - 1] != c);
            }
        }
        if position(s, c) < s.len() {
            assert(s[position(s, c)] == rest[position(rest, c)]);
            assert(s.contains(c));
        }
        if s.contains(c) {
            let k = choose|k: int| 0 <= k < s.len() && s[k] == c;
            assert(rest[k - 1] == c);
            assert(rest.contains(c));
        }
    }
}

/// An index that holds `c`, or the length, with no `c` before it is
/// `position`.
pub proof fn lemma_position_is(s: Seq<char>, c: char, p: int)
    requires
        0 <= p <= s.len(),
        p < s.len() ==> s[p] == c,
        forall|i: int| 0 <= i < p ==> s[i] != c,
    ensures
        position(s, c) == p,
{
    lemma_position(s, c);
}

/// Finds the first `c` in `cs[lo..hi]`; gives `hi` if there is none.
pub fn find(cs: &Vec<char>, lo: usize, hi: usize, c: char) -> (p: usize)
    requires
        lo <= hi <= cs.len(),
    ensures
        lo <= p <= hi,
        p - lo == position(cs@.subrange(lo as int, hi as int), c),
{
    let ghost part = cs@.subrange(lo as int, hi as int);
    let mut p: usize = lo;
    while p < hi && cs[p] != c
        invariant
            lo <= p <= hi <= cs.len(),
            part == cs@.subrange(lo as int, hi as int),
            forall|i: int| 0 <= i < p - lo ==> part[i] != c,
        decreases hi - p,
    {
        p += 1;
    }
    proof {
        lemma_position_is(part, c, p - lo);
    }
    p
}

/// The pieces of `s` between occurrences of `sep`, as `str::split` gives
/// them: one more piece than there are separators, empty pieces included.
pub open spec fn split(s: Seq<char>, sep: char) -> Seq<Seq<char>>
    decreases s.len(),
{
    let p = position(s, sep);
    if 0 <= p < s.len() {
        seq![s.take(p)] + split(s.skip(p + 1), sep)
    } else {
        seq![s]
    }
}

/// The parts of `cs` that `ranges` delimit.
pub open spec fn slices(cs: Seq<char>, ranges: Seq<(usize, usize)>) -> Seq<Seq<char>> {
    Seq::new(ranges.len(), |k: int| cs.subrange(ranges[k].0 as int, ranges[k].1 as int))
}

/// Splits `cs[lo..hi]` at every `sep` and gives the bounds of the pieces.
pub fn split_bounds(cs: &Vec<char>, lo: usize, hi: usize, sep: char) -> (ranges: Vec<
    (usize, usize),
>)
    requires
        lo <= hi <= cs.len(),
    ensures
        slices(cs@, ranges@) == split(cs@.subrange(lo as int, hi as int), sep),
        forall|k: int|
            0 <= k < ranges.len() ==> lo <= (#[trigger] ranges[k]).0 <= ranges[k].1 <= hi,
        ranges.len() > 0,
{
    let ghost whole = cs@.subrange(lo as int, hi as int);
    let mut ranges: Vec<(usize, usize)> = Vec::new();
    let mut start: usize = lo;
    let mut open: bool = true;
    assert(slices(cs@, ranges@) + split(whole, sep) =~= split(whole, sep));
    while open
        invariant
            lo <= start <= hi <= cs.len(),
            whole == cs@.subrange(lo as int, hi as int),
            forall|k: int|
                0 <= k < ranges.len() ==> lo <= (#[trigger] ranges[k]).0 <= ranges[k].1 <= hi,
            open ==> split(whole, sep) == slices(cs@, ranges@) + split(
                cs@.subrange(start as int, hi as int),
                sep,
            ),
            !open ==> split(whole, sep) == slices(cs@, ranges@) && ranges.len() > 0,
        decreases hi - start + (if open { 1int } else { 0int }),
    {
        let ghost rest = cs@.subrange(start as int, hi as int);
        let ghost done = slices(cs@, ranges@);
        let p = find(cs, start, hi, sep);
        ranges.push((start, p));
        proof {
            assert(rest.take(p - start) =~= cs@.subrange(start as int, p as int));
            assert(slices(cs@, ranges@) =~= done + seq![cs@.subrange(start as int, p as int)]);
        }
        if p < hi {
            proof {
                assert(rest.skip(p - start + 1) =~= cs@.subrange(p as int + 1, hi as int));
                assert(split(rest, sep) == seq![rest.take(p - start)] + split(
                    rest.skip(p - start + 1),
                    sep,
                ));
                assert(done + (seq![rest.take(p - start)] + split(rest.skip(p - start + 1), sep))
                    =~= (done + seq![rest.take(p - start)]) + split(
                    rest.skip(p - start + 1),
                    sep,
                ));
            }
            start = p + 1;
        } else {
            proof {
                assert(rest.take(p - start) =~= rest);
                assert(split(rest, sep) == seq![rest]);
            }
            open = false;
        }
    }
    ranges
}

/// Strict lexicographic order by scalar value, the order in which `str` and
/// `String` compare.
pub open spec fn precedes(a: Seq<char>, b: Seq<char>) -> bool
    decreases a.len(),
{
    if b.len() == 0 {
        false
    } else if a.len() == 0 {
        true
    } else if a[0] == b[0] {
        precedes(a.drop_first(), b.drop_first())
    } else {
        a[0] < b[0]
    }
}

/// Where one string stands relative to another in lexicographic order.
#[derive(Clone, Copy, Debug, PartialEq, Eq, Structural)]
pub enum Placement {
    Before,
    Same,
    After,
}

/// The placement of `a` relative to `b`.
pub open spec fn placement(a: Seq<char>, b: Seq<char>) -> Placement {
    if a == b {
        Placement::Same
    } else if precedes(a, b) {
        Placement::Before
    } else {
        Placement::After
    }
}

/// No string precedes itself.
pub proof fn lemma_precedes_irreflexive(a: Seq<char>)
    ensures
        !precedes(a, a),
    decreases a.len(),
{
    if a.len() > 0 {
        lemma_precedes_irreflexive(a.drop_first());
    }
}

/// Of two different strings exactly one precedes the other.
pub proof fn lemma_precedes_total(a: Seq<char>, b: Seq<char>)
    ensures
        a != b ==> (precedes(a, b) <==> !precedes(b, a)),
        a == b ==> !precedes(a, b),
    decreases a.len(),
{
    if a == b {
        lemma_precedes_irreflexive(a);
    } else if a.len() > 0 && b.len() > 0 {
        if a[0] == b[0] {
            if a.drop_first() == b.drop_first() {
                assert(a =~= seq![a[0]] + a.drop_first());
                assert(b =~= seq![b[0]] + b.drop_first());
            }
            lemma_precedes_total(a.drop_first(), b.drop_first());
        }
    } else if a.len() == 0 {
        assert(b.len() > 0) by {
            if b.len() == 0 {
                assert(a =~= b);
            }
        }
    }
}

/// The order is transitive.
pub proof fn lemma_precedes_transitive(a: Seq<char>, b: Seq<char>, c: Seq<char>)
    requires
        precedes(a, b),
        precedes(b, c),
    ensures
        precedes(a, c),
    decreases a.len(),
{
    if a.len() > 0 {
        if a[0] == b[0] && b[0] == c[0] {
            lemma_precedes_transitive(a.drop_first(), b.drop_first(), c.drop_first());
        }
    }
}

/// Compares two strings character by character.
pub fn compare(a: &str, b: &str) -> (r: Placement)
    ensures
        r == placement(a@, b@),
{
    let x = chars_of(a);
    let y = chars_of(b);
    let mut i: usize = 0;
    assert(x@.skip(0) =~= x@ && y@.skip(0) =~= y@);
    while i < x.len() && i < y.len()
        invariant
            x@ == a@,
            y@ == b@,
            i <= x.len(),
            i <= y.len(),
            x@.take(i as int) == y@.take(i as int),
            precedes(x@, y@) == precedes(x@.skip(i as int), y@.skip(i as int)),
        decreases x.len() - i,
    {
        let p: char = x[i];
        let q: char = y[i];
        if p != q {
            assert(x@[i as int] != y@[i as int]);
            assert(x@.skip(i as int)[0] == p && y@.skip(i as int)[0] == q);
            return if p < q {
                Placement::Before
            } else {
                Placement::After
            };
        }
        assert(x@.skip(i as int).drop_first() =~= x@.skip(i as int + 1));
        assert(y@.skip(i as int).drop_first() =~= y@.skip(i as int + 1));
        assert(x@.take(i as int + 1) =~= x@.take(i as int).push(p));
        assert(y@.take(i as int + 1) =~= y@.take(i as int).push(q));
        i += 1;
    }
    if i < y.len() {
        assert(x@ != y@);
        Placement::Before
    } else if i < x.len() {
        assert(x@ != y@);
        Placement::After
    } else {
        assert(x@ =~= x@.take(i as int));
        assert(y@ =~= y@.take(i as int));
        Placement::Same
    }
}

/// The character that writes the digit `d`.
pub open spec fn digit(d: nat) -> char {
    if d == 0 {
        '0'
    } else if d == 1 {
        '1'
    } else if d == 2 {
        '2'
    } else if d == 3 {
        '3'
    } else if d == 4 {
        '4'
    } else if d == 5 {
        '5'
    } else if d == 6 {
        '6'
    } else if d == 7 {
        '7'
    } else if d == 8 {
        '8'
    } else {
        '9'
    }
}

/// `n` written in base ten, without leading zeros.
pub open spec fn decimal(n: nat) -> Seq<char>
    decreases n,
{
    if n < 10 {
        seq![digit(n)]
    } else {
        decimal(n / 10).push(digit(n % 10))
    }
}

fn digit_text(d: usize) -> (r: &'static str)
    requires
        d < 10,
    ensures
        r@ == seq![digit(d as nat)],
{
    proof {
        reveal_strlit("0");
        reveal_strlit("1");
        reveal_strlit("2");
        reveal_strlit("3");
        reveal_strlit("4");
        reveal_strlit("5");
        reveal_strlit("6");
        reveal_strlit("7");
        reveal_strlit("8");
        reveal_strlit("9");
    }
    let r = if d == 0 {
        "0"
    } else if d == 1 {
        "1"
    } else if d == 2 {
        "2"
    } else if d == 3 {
        "3"
    } else if d == 4 {
        "4"
    } else if d == 5 {
        "5"
    } else if d == 6 {
        "6"
    } else if d == 7 {
        "7"
    } else if d == 8 {
        "8"
    } else {
        "9"
    };
    assert(r@ =~= seq![digit(d as nat)]);
    r
}

/// Writes `n` in base ten.
pub fn decimal_string(n: usize) -> (r: String)
    ensures
        r@ == decimal(n as nat),
    decreases n,
{
    if n < 10 {
        String::from_str(digit_text(n))
    } else {
        let mut r = decimal_string(n / 10);
        r.append(digit_text(n % 10));
        assert(r@ =~= decimal(n as nat));
        r
    }
}

/// The number of bytes `s` takes in UTF-8, which is what `str::len` counts.
pub open spec fn utf8_len(s: Seq<char>) -> nat {
    vstd::utf8::encode_utf8(s).len()
}

/// The length of `s` in bytes.
pub fn byte_len(s: &str) -> (n: usize)
    ensures
        n == utf8_len(s@),
{
    s.as_bytes().len()
}

/// `c` with an ASCII capital letter turned into its small letter.
pub open spec fn ascii_lower(c: char) -> char {
    if 'A' <= c && c <= 'Z' {
        ((c as u8) + 32) as char
    } else {
        c
    }
}

/// `s` with every ASCII capital letter turned into its small letter, as
/// `str::to_ascii_lowercase` gives it.
pub open spec fn lowered(s: Seq<char>) -> Seq<char> {
    Seq::new(s.len(), |i: int| ascii_lower(s[i]))
}

/// Two strings differ at most in the case of ASCII letters exactly when they
/// are the same once lowered.
pub proof fn lemma_same_ignoring_ascii_case(a: Seq<char>, b: Seq<char>)
    ensures
        same_ignoring_ascii_case(a, b) <==> lowered(a) == lowered(b),
{
    if same_ignoring_ascii_case(a, b) {
        assert(lowered(a) =~= lowered(b));
    }
    if lowered(a) == lowered(b) {
        assert(a.len() == lowered(a).len());
        assert(b.len() == lowered(b).len());
        assert forall|i: int| 0 <= i < a.len() implies ascii_lower(a[i]) == ascii_lower(b[i]) by {
            assert(lowered(a)[i] == lowered(b)[i]);
        }
    }
}

/// Two strings that differ at most in the case of ASCII letters.
pub open spec fn same_ignoring_ascii_case(a: Seq<char>, b: Seq<char>) -> bool {
    &&& a.len() == b.len()
    &&& forall|i: int| 0 <= i < a.len() ==> ascii_lower(a[i]) == ascii_lower(b[i])
}

/// Turns an ASCII capital letter into its small letter, as
/// `char::to_ascii_lowercase` does.
pub fn to_ascii_lower(c: char) -> (r: char)
    ensures
        r == ascii_lower(c),
{
    if c >= 'A' && c <= 'Z' {
        ((c as u8) + 32) as char
    } else {
        c
    }
}

/// Compares two strings without regard to the case of ASCII letters, as
/// `str::eq_ignore_ascii_case` does.
pub fn eq_ignoring_ascii_case(a: &str, b: &str) -> (r: bool)
    ensures
        r == same_ignoring_ascii_case(a@, b@),
{
    let x = chars_of(a);
    let y = chars_of(b);
    if x.len() != y.len() {
        return false;
    }
    let mut i: usize = 0;
    while i < x.len()
        invariant
            x@ == a@,
            y@ == b@,
            x.len() == y.len(),
            i <= x.len(),
            forall|k: int| 0 <= k < i ==> ascii_lower(x@[k]) == ascii_lower(y@[k]),
        decreases x.len() - i,
    {
        if to_ascii_lower(x[i]) != to_ascii_lower(y[i]) {
            return false;
        }
        i += 1;
    }
    true
}

/// `n` asterisks.
pub open spec fn stars(n: nat) -> Seq<char> {
    Seq::new(n, |i: int| '*')
}

/// Appends `n` asterisks to `s`.
pub fn push_stars(s: &mut String, n: usize)
    ensures
        final(s)@ == old(s)@ + stars(n as nat),
{
    let mut i: usize = 0;
    assert(s@ + stars(0) =~= s@);
    while i < n
        invariant
            i <= n,
            s@ == old(s)@ + stars(i as nat),
        decreases n - i,
    {
        proof {
            reveal_strlit("*");
        }
        s.append("*");
        assert(s@ =~= old(s)@ + stars((i + 1) as nat));
        i += 1;
    }
}

/// A copy of `list`, string by string.
pub fn clone_list(list: &Vec<String>) -> (copy: Vec<String>)
    ensures
        copy.deep_view() == list.deep_view(),
{
    let mut copy: Vec<String> = Vec::new();
    let mut i: usize = 0;
    while i < list.len()
        invariant
            i <= list.len(),
            copy.len() == i,
            forall|k: int| 0 <= k < i ==> copy@[k]@ == list@[k]@,
        decreases list.len() - i,
    {
        copy.push(list[i].clone());
        i += 1;
    }
    assert(copy.deep_view() =~= list.deep_view());
    copy
}

/// `s` without its longest prefix of `c`s.
pub open spec fn without_leading(s: Seq<char>, c: char) -> Seq<char>
    decreases s.len(),
{
    if s.len() > 0 && s[0] == c {
        without_leading(s.drop_first(), c)
    } else {
        s
    }
}

/// `s` without its longest suffix of `c`s.
pub open spec fn without_trailing(s: Seq<char>, c: char) -> Seq<char>
    decreases s.len(),
{
    if s.len() > 0 && s.last() == c {
        without_trailing(s.drop_last(), c)
    } else {
        s
    }
}

/// `s` with every `c` at its start and at its end removed, as
/// `str::trim_matches` gives it.
pub open spec fn stripped(s: Seq<char>, c: char) -> Seq<char> {
    without_trailing(without_leading(s, c), c)
}

/// The bounds of what is left of `cs[lo..hi]` when every `c` at its start
/// and at its end is removed.
pub fn strip_bounds(cs: &Vec<char>, lo: usize, hi: usize, c: char) -> (r: (usize, usize))
    requires
        lo <= hi <= cs.len(),
    ensures
        lo <= r.0 <= r.1 <= hi,
        cs@.subrange(r.0 as int, r.1 as int) == stripped(cs@.subrange(lo as int, hi as int), c),
{
    let ghost part = cs@.subrange(lo as int, hi as int);
    let mut i: usize = lo;
    assert(part.skip(0) =~= part);
    while i < hi && cs[i] == c
        invariant
            lo <= i <= hi <= cs.len(),
            part == cs@.subrange(lo as int, hi as int),
            without_leading(part, c) == without_leading(part.skip(i - lo), c),
        decreases hi - i,
    {
        assert(part.skip(i - lo).drop_first() =~= part.skip(i - lo + 1));
        i += 1;
    }
    assert(without_leading(part, c) == part.skip(i - lo));
    let mut j: usize = hi;
    assert(part.skip(i - lo) =~= cs@.subrange(i as int, j as int));
    while j > i && cs[j - 1] == c
        invariant
            lo <= i <= j <= hi <= cs.len(),
            part == cs@.subrange(lo as int, hi as int),
            stripped(part, c) == without_trailing(cs@.subrange(i as int, j as int), c),
        decreases j,
    {
        assert(cs@.subrange(i as int, j as int).drop_last() =~= cs@.subrange(
            i as int,
            j as int - 1,
        ));
        j -= 1;
    }
    (i, j)
}

} // verus!
