//! Character-level text model shared by the scraper and the deck builder:
//! Unicode white space, trimming, ASCII lowercasing, decimal rendering,
//! substring search, and the small set of `String` operations they need.
use vstd::prelude::*;

verus! {

broadcast use vstd::string::group_string_axioms;

/// The Unicode `White_Space` property (PropList.txt), which is what
/// `char::is_whitespace`, `str::trim` and `str::split_whitespace` test.
pub open spec fn is_white_space(c: char) -> bool {
    ||| ('\u{9}' <= c && c <= '\u{d}')
    ||| c == ' '
    ||| c == '\u{85}'
    ||| c == '\u{a0}'
    ||| c == '\u{1680}'
    ||| ('\u{2000}' <= c && c <= '\u{200a}')
    ||| c == '\u{2028}'
    ||| c == '\u{2029}'
    ||| c == '\u{202f}'
    ||| c == '\u{205f}'
    ||| c == '\u{3000}'
}

/// `s` with every white-space character removed: what gluing together the
/// pieces of `split_whitespace` gives.
pub open spec fn without_white_space(s: Seq<char>) -> Seq<char>
    decreases s.len(),
{
    if s.len() == 0 {
        seq![]
    } else if is_white_space(s.last()) {
        without_white_space(s.drop_last())
    } else {
        without_white_space(s.drop_last()).push(s.last())
    }
}

/// The words of `s` (maximal runs of non-white-space characters) joined by
/// one ASCII space each: every run of white space between two words becomes
/// a single `' '`, and white space before the first or after the last word
/// is dropped.
pub open spec fn collapse_white_space(s: Seq<char>) -> Seq<char>
    decreases s.len(),
{
    if s.len() == 0 {
        seq![]
    } else if is_white_space(s.last()) {
        collapse_white_space(s.drop_last())
    } else {
        let before = s.drop_last();
        let done = collapse_white_space(before);
        if before.len() > 0 && is_white_space(before.last()) && done.len() > 0 {
            done.push(' ').push(s.last())
        } else {
            done.push(s.last())
        }
    }
}

/// `s` without its leading white space.
pub open spec fn trim_start(s: Seq<char>) -> Seq<char>
    decreases s.len(),
{
    if s.len() > 0 && is_white_space(s[0]) {
        trim_start(s.drop_first())
    } else {
        s
    }
}

/// `s` without its trailing white space.
pub open spec fn trim_end(s: Seq<char>) -> Seq<char>
    decreases s.len(),
{
    if s.len() > 0 && is_white_space(s.last()) {
        trim_end(s.drop_last())
    } else {
        s
    }
}

/// `s` without leading and trailing white space (`str::trim`).
pub open spec fn trimmed(s: Seq<char>) -> Seq<char> {
    trim_end(trim_start(s))
}

/// `char::to_ascii_lowercase`: `'A'..='Z'` become `'a'..='z'`, everything
/// else is kept.
pub open spec fn ascii_lower(c: char) -> char {
    if 'A' <= c && c <= 'Z' {
        ((c as u32) + 32) as char
    } else {
        c
    }
}

/// `str::to_ascii_lowercase`.
pub open spec fn ascii_lowercase(s: Seq<char>) -> Seq<char> {
    s.map_values(|c: char| ascii_lower(c))
}

/// The ASCII digit for `d < 10`.
pub open spec fn digit_char(d: nat) -> char {
    (('0' as u32) + d) as char
}

/// The decimal representation of `n`, without sign or leading zeros.
pub open spec fn decimal(n: nat) -> Seq<char>
    decreases n,
{
    if n < 10 {
        seq![digit_char(n)]
    } else {
        decimal(n / 10).push(digit_char(n % 10))
    }
}

/// `s` padded on the left with `'0'` to at least `width` characters.
pub open spec fn zero_padded(s: Seq<char>, width: nat) -> Seq<char>
    decreases width,
{
    if s.len() >= width {
        s
    } else {
        zero_padded(s, (width - 1) as nat).insert(0, '0')
    }
}

/// `needle` occurs in `hay` starting at index `i`.
pub open spec fn occurs_at(hay: Seq<char>, needle: Seq<char>, i: int) -> bool {
    &&& 0 <= i
    &&& i + needle.len() <= hay.len()
    &&& hay.subrange(i, i + needle.len()) == needle
}

/// `needle` occurs somewhere in `hay` (`str::contains`).
pub open spec fn contains_seq(hay: Seq<char>, needle: Seq<char>) -> bool {
    exists|i: int| occurs_at(hay, needle, i)
}

/// The index of the first occurrence of `needle` in `hay` (`str::find`,
/// counted in characters), if any.
#[verifier::opaque]
pub open spec fn first_occurrence(hay: Seq<char>, needle: Seq<char>) -> Option<int> {
    if contains_seq(hay, needle) {
        Some(
            choose|i: int|
                occurs_at(hay, needle, i) && forall|j: int| 0 <= j < i ==> !occurs_at(hay, needle, j),
        )
    } else {
        None
    }
}

/// `String::push`: appends `c` at the end of `s`.
#[verifier::external_body]
pub(crate) fn push_char(s: &mut String, c: char)
    ensures
        final(s)@ == old(s)@.push(c),
{
    s.push(c);
}

/// `char::is_whitespace`.
pub fn is_whitespace(c: char) -> (b: bool)
    ensures
        b == is_white_space(c),
{
    ('\u{9}' <= c && c <= '\u{d}') || c == ' ' || c == '\u{85}' || c == '\u{a0}' || c
        == '\u{1680}' || ('\u{2000}' <= c && c <= '\u{200a}') || c == '\u{2028}' || c
        == '\u{2029}' || c == '\u{202f}' || c == '\u{205f}' || c == '\u{3000}'
}

/// The characters of `s`.
pub fn chars_of(s: &str) -> (v: Vec<char>)
    ensures
        v@ == s@,
{
    let mut v: Vec<char> = Vec::new();
    for c in it: s.chars()
        invariant
            it.seq() == s@,
            v@ == s@.take(it.index() as int),
    {
        assert(c == s@[it.index() as int]);
        assert(s@.take(it.index() + 1) == s@.take(it.index() as int).push(c));
        v.push(c);
    }
    assert(s@.take(s@.len() as int) == s@);
    v
}

/// The string made of the characters `v[from..to]`.
pub fn string_of(v: &Vec<char>, from: usize, to: usize) -> (s: String)
    requires
        from <= to <= v.len(),
    ensures
        s@ == v@.subrange(from as int, to as int),
{
    let mut s = String::new();
    let mut i = from;
    while i < to
        invariant
            from <= i <= to <= v.len(),
            s@ == v@.subrange(from as int, i as int),
        decreases to - i,
    {
        push_char(&mut s, v[i]);
        i = i + 1;
        assert(s@ == v@.subrange(from as int, i as int));
    }
    s
}

/// Appends all of `t` to `s`.
pub fn push_all(s: &mut String, t: &str)
    ensures
        final(s)@ == old(s)@ + t@,
{
    for c in it: t.chars()
        invariant
            it.seq() == t@,
            s@ == old(s)@ + t@.take(it.index() as int),
    {
        assert(c == t@[it.index() as int]);
        assert(t@.take(it.index() + 1) == t@.take(it.index() as int).push(c));
        push_char(s, c);
    }
    assert(t@.take(t@.len() as int) == t@);
}

/// `s` with every white-space character removed.
pub fn remove_whitespace(s: &str) -> (r: String)
    ensures
        r@ == without_white_space(s@),
{
    let mut r = String::new();
    for c in it: s.chars()
        invariant
            it.seq() == s@,
            r@ == without_white_space(s@.take(it.index() as int)),
    {
        assert(c == s@[it.index() as int]);
        assert(s@.take(it.index() + 1).drop_last() == s@.take(it.index() as int));
        if !is_whitespace(c) {
            push_char(&mut r, c);
        }
    }
    assert(s@.take(s@.len() as int) == s@);
    r
}

/// `str::trim`: `s` without leading and trailing white space.
pub fn trim(s: &str) -> (r: String)
    ensures
        r@ == trimmed(s@),
{
    let v = chars_of(s);
    let mut start: usize = 0;
    assert(v@.subrange(0, v@.len() as int) == v@);
    while start < v.len() && is_whitespace(v[start])
        invariant
            start <= v.len(),
            v@ == s@,
            trim_start(v@) == trim_start(v@.subrange(start as int, v@.len() as int)),
        decreases v.len() - start,
    {
        assert(v@.subrange(start as int, v@.len() as int).drop_first() == v@.subrange(
            start + 1,
            v@.len() as int,
        ));
        start = start + 1;
    }
    assert(trim_start(v@) == v@.subrange(start as int, v@.len() as int));
    let mut end: usize = v.len();
    while end > start && is_whitespace(v[end - 1])
        invariant
            start <= end <= v.len(),
            v@ == s@,
            trim_end(v@.subrange(start as int, v@.len() as int)) == trim_end(
                v@.subrange(start as int, end as int),
            ),
        decreases end,
    {
        assert(v@.subrange(start as int, end as int).drop_last() == v@.subrange(
            start as int,
            end - 1,
        ));
        end = end - 1;
    }
    string_of(&v, start, end)
}

/// `str::to_ascii_lowercase`.
pub fn to_ascii_lowercase(s: &str) -> (r: String)
    ensures
        r@ == ascii_lowercase(s@),
{
    let mut r = String::new();
    for c in it: s.chars()
        invariant
            it.seq() == s@,
            r@ == ascii_lowercase(s@.take(it.index() as int)),
    {
        assert(c == s@[it.index() as int]);
        assert(s@.take(it.index() + 1) == s@.take(it.index() as int).push(c));
        let l = if 'A' <= c && c <= 'Z' {
            ((c as u8) + 32) as char
        } else {
            c
        };
        push_char(&mut r, l);
        assert(ascii_lowercase(s@.take(it.index() + 1)) == ascii_lowercase(
            s@.take(it.index() as int),
        ).push(l));
    }
    assert(s@.take(s@.len() as int) == s@);
    r
}

/// The ASCII digit for `d < 10`.
fn digit(d: u64) -> (c: char)
    requires
        d < 10,
    ensures
        c == digit_char(d as nat),
{
    (('0' as u8) + (d as u8)) as char
}

/// Appends the decimal representation of `n` to `out`.
pub fn push_decimal(out: &mut String, n: u64)
    ensures
        final(out)@ == old(out)@ + decimal(n as nat),
    decreases n,
{
    if n >= 10 {
        push_decimal(out, n / 10);
    }
    push_char(out, digit(n % 10));
}

/// Appends the decimal representation of `n`, padded on the left with zeros
/// to at least three digits (`{:03}`), to `out`.
pub fn push_decimal_width3(out: &mut String, n: u64)
    ensures
        final(out)@ == old(out)@ + zero_padded(decimal(n as nat), 3),
{
    proof {
        reveal_with_fuel(decimal, 3);
        reveal_with_fuel(zero_padded, 4);
    }
    if n < 10 {
        push_char(out, '0');
        push_char(out, '0');
        assert(zero_padded(decimal(n as nat), 3) == seq!['0', '0'] + decimal(n as nat));
    } else if n < 100 {
        push_char(out, '0');
        assert(decimal(n as nat).len() == 2);
        assert(zero_padded(decimal(n as nat), 3) == seq!['0'] + decimal(n as nat));
    } else {
        proof {
            lemma_decimal_len_at_least_3(n as nat);
        }
    }
    push_decimal(out, n);
}

proof fn lemma_decimal_len_at_least_3(n: nat)
    requires
        n >= 100,
    ensures
        decimal(n).len() >= 3,
    decreases n,
{
    reveal_with_fuel(decimal, 3);
    if n >= 1000 {
        lemma_decimal_len_at_least_3(n / 10);
    }
}

/// Whether `needle` occurs in `hay` starting at index `i`.
pub fn occurs_at_exec(hay: &Vec<char>, needle: &Vec<char>, i: usize) -> (b: bool)
    ensures
        b == occurs_at(hay@, needle@, i as int),
{
    if needle.len() > hay.len() || i > hay.len() - needle.len() {
        return false;
    }
    let mut k: usize = 0;
    while k < needle.len()
        invariant
            i + needle.len() <= hay.len(),
            k <= needle.len(),
            forall|j: int| 0 <= j < k ==> hay@[i + j] == needle@[j],
        decreases needle.len() - k,
    {
        if hay[i + k] != needle[k] {
            assert(hay@.subrange(i as int, i + needle@.len())[k as int] != needle@[k as int]);
            return false;
        }
        k = k + 1;
    }
    assert(hay@.subrange(i as int, i + needle@.len()) == needle@);
    true
}

/// The index of the first occurrence of `needle` in `hay`, in characters.
pub fn find_first(hay: &Vec<char>, needle: &Vec<char>) -> (r: Option<usize>)
    ensures
        r matches Some(i) ==> first_occurrence(hay@, needle@) == Some(i as int) && occurs_at(
            hay@,
            needle@,
            i as int,
        ),
        r is None ==> first_occurrence(hay@, needle@) is None,
        r is None <==> !contains_seq(hay@, needle@),
{
    if needle.len() == 0 {
        proof {
            assert(hay@.subrange(0, 0) == needle@);
            lemma_first_occurrence_is(hay@, needle@, 0);
        }
        return Some(0);
    }
    let mut i: usize = 0;
    while i < hay.len()
        invariant
            i <= hay.len(),
            needle.len() > 0,
            forall|j: int| 0 <= j < i ==> !occurs_at(hay@, needle@, j),
        decreases hay.len() - i,
    {
        if occurs_at_exec(hay, needle, i) {
            proof {
                lemma_first_occurrence_is(hay@, needle@, i as int);
            }
            return Some(i);
        }
        i = i + 1;
    }
    proof {
        reveal(first_occurrence);
        assert forall|j: int| !occurs_at(hay@, needle@, j) by {
            if 0 <= j < i {
            }
        }
    }
    None
}

/// If `needle` occurs at `i` and nowhere before, `i` is its first occurrence.
pub proof fn lemma_first_occurrence_is(hay: Seq<char>, needle: Seq<char>, i: int)
    requires
        occurs_at(hay, needle, i),
        forall|j: int| 0 <= j < i ==> !occurs_at(hay, needle, j),
    ensures
        first_occurrence(hay, needle) == Some(i),
{
    reveal(first_occurrence);
    let k = choose|k: int|
        occurs_at(hay, needle, k) && forall|j: int| 0 <= j < k ==> !occurs_at(hay, needle, j);
    assert(occurs_at(hay, needle, k));
    if k < i {
    } else if k > i {
        assert(!occurs_at(hay, needle, i));
    }
}

/// Removing white space from `s` followed by `c`.
pub proof fn lemma_without_white_space_push(s: Seq<char>, c: char)
    ensures
        without_white_space(s.push(c)) == if is_white_space(c) {
            without_white_space(s)
        } else {
            without_white_space(s).push(c)
        },
{
    assert(s.push(c).drop_last() == s);
}

/// Collapsing white space keeps every other character, in order: removing
/// the white space from the result gives what removing it from the input
/// gives.
pub proof fn lemma_collapse_keeps_text(s: Seq<char>)
    ensures
        without_white_space(collapse_white_space(s)) == without_white_space(s),
    decreases s.len(),
{
    if s.len() > 0 {
        let before = s.drop_last();
        let c = s.last();
        assert(before.push(c) == s);
        lemma_collapse_keeps_text(before);
        lemma_without_white_space_push(before, c);
        let done = collapse_white_space(before);
        if !is_white_space(c) {
            lemma_without_white_space_push(done, ' ');
            lemma_without_white_space_push(done.push(' '), c);
            lemma_without_white_space_push(done, c);
        }
    }
}

/// Collapsed text is trimmed, and its only white space is single ASCII
/// spaces between two other characters.
pub proof fn lemma_collapse_shape(s: Seq<char>)
    ensures
        in_collapsed_shape(collapse_white_space(s)),
    decreases s.len(),
{
    if s.len() > 0 {
        let before = s.drop_last();
        let c = s.last();
        lemma_collapse_shape(before);
        let done = collapse_white_space(before);
        let r = collapse_white_space(s);
        if !is_white_space(c) {
            assert forall|i: int|
                0 <= i < r.len() && #[trigger] is_white_space(r[i]) implies r[i] == ' ' && 0 < i
                    < r.len() - 1 && !is_white_space(r[i - 1]) && !is_white_space(r[i + 1]) by {
                if i < done.len() {
                    assert(r[i] == done[i]);
                    if i + 1 < done.len() {
                        assert(r[i + 1] == done[i + 1]);
                    }
                    assert(r[i - 1] == done[i - 1]);
                }
            }
            if done.len() > 0 {
                assert(r[0] == done[0]);
            }
        }
    }
}

/// Text in collapsed shape: no white space at either end, and each white
/// space character a single ASCII space between two other characters.
pub open spec fn in_collapsed_shape(r: Seq<char>) -> bool {
    &&& r.len() > 0 ==> !is_white_space(r[0]) && !is_white_space(r.last())
    &&& forall|i: int|
        0 <= i < r.len() && #[trigger] is_white_space(r[i]) ==> r[i] == ' ' && 0 < i < r.len() - 1
            && !is_white_space(r[i - 1]) && !is_white_space(r[i + 1])
}

/// Text already in collapsed shape is left as it is.
pub proof fn lemma_collapse_fixes_collapsed(r: Seq<char>)
    requires
        in_collapsed_shape(r),
    ensures
        collapse_white_space(r) == r,
    decreases r.len(),
{
    if r.len() > 1 {
        let r1 = r.drop_last();
        if !is_white_space(r1.last()) {
            assert forall|i: int|
                0 <= i < r1.len() && #[trigger] is_white_space(r1[i]) implies r1[i] == ' ' && 0 < i
                    < r1.len() - 1 && !is_white_space(r1[i - 1]) && !is_white_space(r1[i + 1]) by {
                assert(r1[i] == r[i]);
                assert(r1[i - 1] == r[i - 1]);
                assert(r1[i + 1] == r[i + 1]);
            }
            lemma_collapse_fixes_collapsed(r1);
            assert(!is_white_space(r.last()));
            assert(r.drop_last() == r1);
            assert(collapse_white_space(r) == collapse_white_space(r1).push(r.last()));
            assert(r1.push(r.last()) =~= r);
        } else {
            let r2 = r1.drop_last();
            assert(is_white_space(r[r.len() - 2]));
            assert(r2.len() > 0);
            assert(!is_white_space(r2.last()));
            assert forall|i: int|
                0 <= i < r2.len() && #[trigger] is_white_space(r2[i]) implies r2[i] == ' ' && 0 < i
                    < r2.len() - 1 && !is_white_space(r2[i - 1]) && !is_white_space(r2[i + 1]) by {
                assert(r2[i] == r[i]);
                assert(r2[i - 1] == r[i - 1]);
                assert(r2[i + 1] == r[i + 1]);
            }
            lemma_collapse_fixes_collapsed(r2);
            assert(r2.len() < r1.len());
            assert(collapse_white_space(r1) == collapse_white_space(r2));
            assert(r1.last() == ' ');
            assert(!is_white_space(r.last()));
            assert(r.drop_last() == r1);
            assert(collapse_white_space(r) == collapse_white_space(r2).push(' ').push(r.last()));
            assert(r2.push(' ').push(r.last()) =~= r);
        }
    } else if r.len() == 1 {
        assert(r.drop_last() =~= Seq::<char>::empty());
        assert(!is_white_space(r.last()));
        assert(collapse_white_space(r) == collapse_white_space(r.drop_last()).push(r.last()));
        assert(Seq::<char>::empty().push(r.last()) =~= r);
    }
}

/// Collapsing twice is collapsing once.
pub proof fn lemma_collapse_idempotent(s: Seq<char>)
    ensures
        collapse_white_space(collapse_white_space(s)) == collapse_white_space(s),
{
    lemma_collapse_shape(s);
    lemma_collapse_fixes_collapsed(collapse_white_space(s));
}

/// Collapsed text is already trimmed: trimming it changes nothing.
pub proof fn lemma_collapse_is_trimmed(s: Seq<char>)
    ensures
        trimmed(collapse_white_space(s)) == collapse_white_space(s),
{
    lemma_collapse_shape(s);
}

/// Collapsing is empty exactly when the input has nothing but white space.
pub proof fn lemma_collapse_empty(s: Seq<char>)
    ensures
        (collapse_white_space(s).len() == 0) == (without_white_space(s).len() == 0),
{
    lemma_collapse_keeps_text(s);
    let r = collapse_white_space(s);
    lemma_collapse_shape(s);
    if r.len() > 0 {
        lemma_without_white_space_keeps_last(r);
    }
}

/// The last character of `s`, if it is not white space, survives removing
/// white space.
proof fn lemma_without_white_space_keeps_last(s: Seq<char>)
    requires
        s.len() > 0,
        !is_white_space(s.last()),
    ensures
        without_white_space(s).len() > 0,
{
}

/// A text without white space is left as it is by removing white space.
pub proof fn lemma_without_white_space_idempotent(s: Seq<char>)
    ensures
        without_white_space(without_white_space(s)) == without_white_space(s),
    decreases s.len(),
{
    if s.len() > 0 {
        lemma_without_white_space_idempotent(s.drop_last());
        lemma_without_white_space_push(without_white_space(s.drop_last()), s.last());
    }
}

/// If `needle` occurs at `k`, it has a first occurrence.
pub proof fn lemma_first_occurrence_exists(hay: Seq<char>, needle: Seq<char>, k: int)
    requires
        occurs_at(hay, needle, k),
    ensures
        exists|i: int|
            occurs_at(hay, needle, i) && forall|j: int| 0 <= j < i ==> !occurs_at(hay, needle, j),
    decreases k,
{
    if exists|j: int| 0 <= j < k && occurs_at(hay, needle, j) {
        let j = choose|j: int| 0 <= j < k && occurs_at(hay, needle, j);
        lemma_first_occurrence_exists(hay, needle, j);
    } else {
        assert(forall|j: int| 0 <= j < k ==> !occurs_at(hay, needle, j));
    }
}

/// Every character of `s` is an ASCII digit.
pub open spec fn all_digits(s: Seq<char>) -> bool {
    forall|i: int| 0 <= i < s.len() ==> '0' <= #[trigger] s[i] <= '9'
}

/// The number an ASCII digit string denotes.
pub open spec fn digits_value(s: Seq<char>) -> nat
    decreases s.len(),
{
    if s.len() == 0 {
        0
    } else {
        digits_value(s.drop_last()) * 10 + ((s.last() as u32) - ('0' as u32)) as nat
    }
}

/// Decimal representations are digit strings.
pub proof fn lemma_decimal_all_digits(n: nat)
    ensures
        decimal(n).len() > 0,
        all_digits(decimal(n)),
    decreases n,
{
    if n >= 10 {
        lemma_decimal_all_digits(n / 10);
        let before = decimal(n / 10);
        assert forall|i: int| 0 <= i < decimal(n).len() implies '0' <= #[trigger] decimal(n)[i]
            <= '9' by {
            if i < before.len() {
                assert(decimal(n)[i] == before[i]);
            }
        }
    }
}

/// A decimal representation denotes its number.
pub proof fn lemma_decimal_value(n: nat)
    ensures
        digits_value(decimal(n)) == n,
    decreases n,
{
    if n < 10 {
        let s = seq![digit_char(n)];
        assert(s.drop_last() =~= Seq::<char>::empty());
        assert(digits_value(Seq::<char>::empty()) == 0);
        assert(((digit_char(n) as u32) - ('0' as u32)) as nat == n);
        assert(digits_value(s) == digits_value(s.drop_last()) * 10 + ((s.last() as u32) - ('0' as u32)) as nat);
    } else {
        let s = decimal(n);
        lemma_decimal_value(n / 10);
        assert(s.drop_last() == decimal(n / 10));
        assert(s.last() == digit_char(n % 10));
        assert(((digit_char(n % 10) as u32) - ('0' as u32)) as nat == n % 10);
        assert(digits_value(s) == digits_value(s.drop_last()) * 10 + ((s.last() as u32) - ('0' as u32)) as nat);
        assert((n / 10) * 10 + n % 10 == n) by (nonlinear_arith);
    }
}

/// A leading zero does not change the number.
pub proof fn lemma_leading_zero_value(s: Seq<char>)
    ensures
        digits_value(s.insert(0, '0')) == digits_value(s),
    decreases s.len(),
{
    let t = s.insert(0, '0');
    if s.len() == 0 {
        assert(t.drop_last() =~= Seq::<char>::empty());
        assert(t =~= seq!['0']);
        assert(digits_value(Seq::<char>::empty()) == 0);
        assert(digits_value(t) == digits_value(t.drop_last()) * 10 + ((t.last() as u32) - ('0' as u32)) as nat);
    } else {
        lemma_leading_zero_value(s.drop_last());
        assert(t.drop_last() =~= s.drop_last().insert(0, '0'));
        assert(t.last() == s.last());
        assert(digits_value(t) == digits_value(t.drop_last()) * 10 + ((t.last() as u32) - ('0' as u32)) as nat);
        assert(digits_value(s) == digits_value(s.drop_last()) * 10 + ((s.last() as u32) - ('0' as u32)) as nat);
    }
}

/// Padding with zeros keeps a digit string's digits and number.
pub proof fn lemma_zero_padded_value(s: Seq<char>, width: nat)
    requires
        all_digits(s),
    ensures
        all_digits(zero_padded(s, width)),
        digits_value(zero_padded(s, width)) == digits_value(s),
    decreases width,
{
    if s.len() < width {
        let inner = zero_padded(s, (width - 1) as nat);
        lemma_zero_padded_value(s, (width - 1) as nat);
        lemma_leading_zero_value(inner);
        assert forall|i: int| 0 <= i < inner.insert(0, '0').len() implies '0' <= #[trigger] inner.insert(
            0,
            '0',
        )[i] <= '9' by {
            if i > 0 {
                assert(inner.insert(0, '0')[i] == inner[i - 1]);
            }
        }
    }
}

/// Two texts `a + "-" + d` with `d` digits split the same way at their last
/// `-`: equal texts have equal digit suffixes.
pub proof fn lemma_dash_digits_suffix(a1: Seq<char>, d1: Seq<char>, a2: Seq<char>, d2: Seq<char>)
    requires
        all_digits(d1),
        all_digits(d2),
        a1 + seq!['-'] + d1 == a2 + seq!['-'] + d2,
    ensures
        d1 == d2,
{
    let t = a1 + seq!['-'] + d1;
    let n = t.len();
    if d1.len() < d2.len() {
        let p = n - d1.len() - 1;
        assert(t[p] == '-');
        assert((a2 + seq!['-'] + d2)[p] == d2[p - (a2.len() + 1)]);
    } else if d2.len() < d1.len() {
        let p = n - d2.len() - 1;
        assert((a2 + seq!['-'] + d2)[p] == '-');
        assert(t[p] == d1[p - (a1.len() + 1)]);
    } else {
        assert(d1 =~= t.subrange(n - d1.len(), n as int));
        assert(d2 =~= (a2 + seq!['-'] + d2).subrange(n - d2.len(), n as int));
    }
}

} // verus!
