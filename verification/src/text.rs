//! Characters, words and numbers of text files.
use crate::scalar::Scalar;
use vstd::prelude::*;

verus! {

/// `String::push` appends a character.
pub assume_specification[ String::push ](s: &mut String, c: char)
    ensures
        final(s)@ == old(s)@.push(c),
;

/// The characters of a text.
pub fn chars_of(s: &str) -> (r: Vec<char>)
    ensures
        r@ == s@,
{
    let mut r: Vec<char> = Vec::new();
    for c in iter: s.chars()
        invariant
            r@ == iter.seq().take(iter.index() as int),
            iter.seq() == s@,
    {
        r.push(c);
        assert(r@ =~= iter.seq().take(iter.index() + 1));
    }
    assert(r@ =~= s@);
    r
}

/// The text of characters.
pub fn string_of(cs: &[char]) -> (r: String)
    ensures
        r@ == cs@,
{
    let mut r: String = String::new();
    let mut i: usize = 0;
    assert(r@ =~= cs@.take(0));
    while i < cs.len()
        invariant
            i <= cs@.len(),
            r@ == cs@.take(i as int),
        decreases cs@.len() - i,
    {
        r.push(cs[i]);
        i = i + 1;
        assert(r@ =~= cs@.take(i as int));
    }
    assert(r@ =~= cs@);
    r
}

/// The character is white space, as Unicode has it.
pub open spec fn is_space(c: char) -> bool {
    let u = c as int;
    ||| 9 <= u <= 13
    ||| u == 0x20
    ||| u == 0x85
    ||| u == 0xa0
    ||| u == 0x1680
    ||| 0x2000 <= u <= 0x200a
    ||| u == 0x2028
    ||| u == 0x2029
    ||| u == 0x202f
    ||| u == 0x205f
    ||| u == 0x3000
}

/// Tests for white space.
pub fn space(c: char) -> (r: bool)
    ensures
        r == is_space(c),
{
    let u: u32 = c as u32;
    (9 <= u && u <= 13) || u == 0x20 || u == 0x85 || u == 0xa0 || u == 0x1680 || (0x2000 <= u && u
        <= 0x200a) || u == 0x2028 || u == 0x2029 || u == 0x202f || u == 0x205f || u == 0x3000
}

/// The text from its first character on that `skip` does not hold for.
pub open spec fn front_cut(s: Seq<char>, skip: spec_fn(char) -> bool) -> Seq<char>
    decreases s.len(),
{
    if s.len() > 0 && skip(s[0]) {
        front_cut(s.drop_first(), skip)
    } else {
        s
    }
}

/// The text up to its last character that `skip` does not hold for.
pub open spec fn back_cut(s: Seq<char>, skip: spec_fn(char) -> bool) -> Seq<char>
    decreases s.len(),
{
    if s.len() > 0 && skip(s.last()) {
        back_cut(s.drop_last(), skip)
    } else {
        s
    }
}

/// The text without white space at its ends.
pub open spec fn trimmed(s: Seq<char>) -> Seq<char> {
    back_cut(front_cut(s, |c: char| is_space(c)), |c: char| is_space(c))
}

/// Where the text starts without what `skip` holds for.
pub(crate) proof fn lemma_front_cut(s: Seq<char>, skip: spec_fn(char) -> bool, k: int)
    requires
        0 <= k <= s.len(),
        forall|i: int| 0 <= i < k ==> skip(#[trigger] s[i]),
        k < s.len() ==> !skip(s[k]),
    ensures
        front_cut(s, skip) == s.skip(k),
    decreases k,
{
    if k > 0 {
        assert(skip(s[0]));
        let t = s.drop_first();
        assert forall|i: int| 0 <= i < k - 1 implies skip(#[trigger] t[i]) by {
            assert(t[i] == s[i + 1]);
        }
        lemma_front_cut(t, skip, k - 1);
        assert(t.skip(k - 1) =~= s.skip(k));
    } else {
        assert(s.skip(0) =~= s);
    }
}

/// Where the text ends without what `skip` holds for.
pub(crate) proof fn lemma_back_cut(s: Seq<char>, skip: spec_fn(char) -> bool, k: int)
    requires
        0 <= k <= s.len(),
        forall|i: int| k <= i < s.len() ==> skip(#[trigger] s[i]),
        k > 0 ==> !skip(s[k - 1]),
    ensures
        back_cut(s, skip) == s.take(k),
    decreases s.len() - k,
{
    if k < s.len() {
        assert(skip(s[s.len() - 1]));
        let t = s.drop_last();
        assert forall|i: int| k <= i < t.len() implies skip(#[trigger] t[i]) by {
            assert(t[i] == s[i]);
        }
        lemma_back_cut(t, skip, k);
        assert(t.take(k) =~= s.take(k));
    } else {
        assert(s.take(k) =~= s);
    }
}

/// A part of a text.
pub fn part(s: &[char], from: usize, to: usize) -> (r: Vec<char>)
    requires
        from <= to <= s@.len(),
    ensures
        r@ == s@.subrange(from as int, to as int),
{
    let mut r: Vec<char> = Vec::new();
    let mut i: usize = from;
    while i < to
        invariant
            from <= i <= to <= s@.len(),
            r@ == s@.subrange(from as int, i as int),
        decreases to - i,
    {
        r.push(s[i]);
        i = i + 1;
        assert(r@ =~= s@.subrange(from as int, i as int));
    }
    r
}

/// The text without white space at its ends.
pub fn trim(s: &[char]) -> (r: Vec<char>)
    ensures
        r@ == trimmed(s@),
{
    let n: usize = s.len();
    let ghost skip = |c: char| is_space(c);
    let mut a: usize = 0;
    while a < n && space(s[a])
        invariant
            a <= n == s@.len(),
            skip == (|c: char| is_space(c)),
            forall|i: int| 0 <= i < a ==> skip(#[trigger] s@[i]),
        decreases n - a,
    {
        a = a + 1;
    }
    proof {
        lemma_front_cut(s@, skip, a as int);
    }
    let ghost rest = s@.skip(a as int);
    let mut b: usize = n;
    while a < b && space(s[b - 1])
        invariant
            a <= b <= n == s@.len(),
            skip == (|c: char| is_space(c)),
            forall|i: int| b <= i < n ==> skip(#[trigger] s@[i]),
        decreases b - a,
    {
        b = b - 1;
    }
    proof {
        assert forall|i: int| b - a <= i < rest.len() implies skip(#[trigger] rest[i]) by {
            assert(rest[i] == s@[i + a]);
        }
        lemma_back_cut(rest, skip, b - a);
        assert(rest.take(b - a) =~= s@.subrange(a as int, b as int));
    }
    part(s, a, b)
}

/// The text without copies of `c` at its start.
pub fn trim_front(s: &[char], c: char) -> (r: Vec<char>)
    ensures
        r@ == front_cut(s@, |d: char| d == c),
{
    let n: usize = s.len();
    let ghost skip = |d: char| d == c;
    let mut a: usize = 0;
    while a < n && s[a] == c
        invariant
            a <= n == s@.len(),
            skip == (|d: char| d == c),
            forall|i: int| 0 <= i < a ==> skip(#[trigger] s@[i]),
        decreases n - a,
    {
        a = a + 1;
    }
    proof {
        lemma_front_cut(s@, skip, a as int);
        assert(s@.skip(a as int) =~= s@.subrange(a as int, n as int));
    }
    part(s, a, n)
}

/// The text without copies of `c` at its end.
pub fn trim_back(s: &[char], c: char) -> (r: Vec<char>)
    ensures
        r@ == back_cut(s@, |d: char| d == c),
{
    let n: usize = s.len();
    let ghost skip = |d: char| d == c;
    let mut b: usize = n;
    while 0 < b && s[b - 1] == c
        invariant
            b <= n == s@.len(),
            skip == (|d: char| d == c),
            forall|i: int| b <= i < n ==> skip(#[trigger] s@[i]),
        decreases b,
    {
        b = b - 1;
    }
    proof {
        lemma_back_cut(s@, skip, b as int);
        assert(s@.take(b as int) =~= s@.subrange(0, b as int));
    }
    part(s, 0, b)
}

/// The pieces of a text between copies of `c`.
pub open spec fn pieces(s: Seq<char>, c: char) -> Seq<Seq<char>>
    decreases s.len(),
{
    if s.len() == 0 {
        seq![Seq::empty()]
    } else {
        let before = pieces(s.drop_last(), c);
        if s.last() == c {
            before.push(Seq::empty())
        } else {
            before.drop_last().push(before.last().push(s.last()))
        }
    }
}

/// A text without `c` is its only piece.
pub(crate) proof fn lemma_one_piece(s: Seq<char>, c: char)
    requires
        !s.contains(c),
    ensures
        pieces(s, c) == seq![s],
    decreases s.len(),
{
    if s.len() > 0 {
        let t = s.drop_last();
        assert(s.contains(s.last()));
        assert forall|d: char| t.contains(d) implies s.contains(d) by {
            let i = choose|i: int| 0 <= i < t.len() && t[i] == d;
            assert(s[i] == d);
        }
        lemma_one_piece(t, c);
        assert(t.push(s.last()) =~= s);
        assert(pieces(s, c) =~= seq![s]);
    } else {
        assert(s =~= Seq::empty());
    }
}

/// The pieces on the two sides of a separator.
pub(crate) proof fn lemma_pieces_around(a: Seq<char>, c: char, b: Seq<char>)
    ensures
        pieces(a.push(c) + b, c) == pieces(a, c) + pieces(b, c),
        pieces(b, c).len() > 0,
    decreases b.len(),
{
    let s = a.push(c) + b;
    if b.len() == 0 {
        assert(s =~= a.push(c));
        assert(a.push(c).drop_last() =~= a);
        assert(pieces(s, c) =~= pieces(a, c) + pieces(b, c));
    } else {
        lemma_pieces_around(a, c, b.drop_last());
        assert(s.drop_last() =~= a.push(c) + b.drop_last());
        assert(pieces(s, c) =~= pieces(a, c) + pieces(b, c));
    }
}

/// The contents of a list of texts.
pub open spec fn texts(v: Seq<Vec<char>>) -> Seq<Seq<char>> {
    Seq::new(v.len(), |i: int| v[i]@)
}

/// Splits a text at copies of `c`.
pub fn split(s: &[char], c: char) -> (r: Vec<Vec<char>>)
    ensures
        r@.len() > 0,
        texts(r@) == pieces(s@, c),
{
    let mut done: Vec<Vec<char>> = Vec::new();
    let mut cur: Vec<char> = Vec::new();
    let mut i: usize = 0;
    assert(s@.take(0) =~= Seq::empty());
    assert(texts(done@).push(cur@) =~= pieces(s@.take(0), c));
    while i < s.len()
        invariant
            i <= s@.len(),
            texts(done@).push(cur@) == pieces(s@.take(i as int), c),
        decreases s@.len() - i,
    {
        let ghost old_done = texts(done@);
        let ghost old_cur = cur@;
        let d: char = s[i];
        if d == c {
            done.push(cur);
            cur = Vec::new();
            assert(cur@ =~= Seq::<char>::empty());
            assert(texts(done@) =~= old_done.push(old_cur));
        } else {
            cur.push(d);
        }
        proof {
            assert(s@.take(i + 1).drop_last() =~= s@.take(i as int));
            assert(old_done.push(old_cur).drop_last() =~= old_done);
        }
        i = i + 1;
    }
    assert(s@.take(i as int) =~= s@);
    let ghost old_done = texts(done@);
    let ghost old_cur = cur@;
    done.push(cur);
    assert(texts(done@) =~= old_done.push(old_cur));
    done
}

/// The words of a text: its runs of characters that are not white space. The last
/// one is still open if the text does not end in white space.
pub open spec fn words(s: Seq<char>) -> Seq<Seq<char>>
    decreases s.len(),
{
    if s.len() == 0 {
        Seq::empty()
    } else {
        let before = words(s.drop_last());
        if is_space(s.last()) {
            before
        } else if s.len() > 1 && !is_space(s[s.len() - 2]) && before.len() > 0 {
            before.drop_last().push(before.last().push(s.last()))
        } else {
            before.push(seq![s.last()])
        }
    }
}

/// Splits a text into its words.
pub fn split_words(s: &[char]) -> (r: Vec<Vec<char>>)
    ensures
        texts(r@) == words(s@),
{
    let mut done: Vec<Vec<char>> = Vec::new();
    let mut cur: Vec<char> = Vec::new();
    let mut open: bool = false;
    let mut i: usize = 0;
    assert(s@.take(0) =~= Seq::empty());
    assert(texts(done@) =~= words(s@.take(0)));
    while i < s.len()
        invariant
            i <= s@.len(),
            open == (i > 0 && !is_space(s@[i - 1])),
            !open ==> cur@.len() == 0 && texts(done@) == words(s@.take(i as int)),
            open ==> texts(done@).push(cur@) == words(s@.take(i as int)),
        decreases s@.len() - i,
    {
        let ghost old_done = texts(done@);
        let ghost old_cur = cur@;
        let d: char = s[i];
        proof {
            assert(s@.take(i + 1).drop_last() =~= s@.take(i as int));
            assert(old_done.push(old_cur).drop_last() =~= old_done);
        }
        if space(d) {
            if open {
                done.push(cur);
                cur = Vec::new();
                assert(texts(done@) =~= old_done.push(old_cur));
            }
            open = false;
        } else {
            cur.push(d);
            open = true;
            assert(old_cur.len() == 0 ==> cur@ =~= seq![d]);
        }
        i = i + 1;
    }
    assert(s@.take(i as int) =~= s@);
    if open {
        let ghost old_done = texts(done@);
        let ghost old_cur = cur@;
        done.push(cur);
        assert(texts(done@) =~= old_done.push(old_cur));
    }
    done
}

/// The rest of a text after a prefix, if it has it.
pub open spec fn after_prefix(s: Seq<char>, p: Seq<char>) -> Option<Seq<char>> {
    if p.len() <= s.len() && s.take(p.len() as int) == p {
        Some(s.skip(p.len() as int))
    } else {
        None
    }
}

/// Tests for a prefix and gives the rest of the text.
pub fn strip_prefix(s: &[char], p: &str) -> (r: Option<Vec<char>>)
    ensures
        match after_prefix(s@, p@) {
            Some(rest) => r matches Some(v) && v@ == rest,
            None => r is None,
        },
{
    let q: Vec<char> = chars_of(p);
    let n: usize = q.len();
    if s.len() < n {
        return None;
    }
    let mut i: usize = 0;
    while i < n
        invariant
            i <= n == q@.len() <= s@.len(),
            q@ == p@,
            forall|k: int| 0 <= k < i ==> s@[k] == #[trigger] q@[k],
        decreases n - i,
    {
        if s[i] != q[i] {
            assert(s@.take(n as int)[i as int] != p@[i as int]);
            return None;
        }
        i = i + 1;
    }
    assert(s@.take(n as int) =~= p@);
    assert(s@.skip(n as int) =~= s@.subrange(n as int, s@.len() as int));
    Some(part(s, n, s.len()))
}

/// Tests whether a text reads as given.
pub fn same_text(s: &[char], p: &str) -> (r: bool)
    ensures
        r == (s@ == p@),
{
    match strip_prefix(s, p) {
        Some(rest) => {
            assert(rest@.len() == 0 ==> s@ =~= s@.take(p@.len() as int));
            rest.len() == 0
        },
        None => {
            assert(s@ == p@ ==> s@.take(p@.len() as int) =~= p@);
            false
        },
    }
}

/// The character of a digit.
pub open spec fn digit_char(d: int) -> char {
    (48 + d) as char
}

/// The value of a digit.
pub open spec fn digit_value(c: char) -> Option<nat> {
    if 48 <= c as int <= 57 {
        Some((c as int - 48) as nat)
    } else {
        None
    }
}

/// A number in decimal.
pub open spec fn decimal(n: nat) -> Seq<char>
    decreases n,
{
    if n < 10 {
        seq![digit_char(n as int)]
    } else {
        decimal(n / 10).push(digit_char((n % 10) as int))
    }
}

pub(crate) fn to_digit(d: u64) -> (r: char)
    requires
        d < 10,
    ensures
        r == digit_char(d as int),
{
    if d == 0 {
        '0'
    } else if d == 1 {
        '1'
    } else if d == 2 {
        '2'
    } else if d == 3 {
        '3'
    } else if d == 4 {
        '4'
    } else if d == 5 {
        '5'
    } else if d == 6 {
        '6'
    } else if d == 7 {
        '7'
    } else if d == 8 {
        '8'
    } else {
        '9'
    }
}

/// Appends a number in decimal.
pub fn push_decimal(out: &mut String, n: u64)
    ensures
        final(out)@ == old(out)@ + decimal(n as nat),
    decreases n,
{
    if n >= 10 {
        push_decimal(out, n / 10);
        out.push(to_digit(n % 10));
        assert(out@ =~= old(out)@ + decimal(n as nat));
    } else {
        out.push(to_digit(n));
        assert(out@ =~= old(out)@ + decimal(n as nat));
    }
}

/// Every character is a digit.
pub open spec fn all_digits(s: Seq<char>) -> bool {
    forall|i: int| 0 <= i < s.len() ==> digit_value(#[trigger] s[i]) is Some
}

/// The value of digits.
pub open spec fn digits_value(s: Seq<char>) -> nat
    decreases s.len(),
{
    if s.len() == 0 {
        0
    } else {
        10 * digits_value(s.drop_last()) + digit_value(s.last())->0
    }
}

/// A text without a plus sign in front.
pub open spec fn unsigned(s: Seq<char>) -> Seq<char> {
    if s.len() > 0 && s[0] == '+' {
        s.skip(1)
    } else {
        s
    }
}

/// The number that a text of digits stands for, if it is not above `max`.
pub open spec fn count_in(s: Seq<char>, max: nat) -> Option<nat> {
    let d = unsigned(s);
    if d.len() > 0 && all_digits(d) && digits_value(d) <= max {
        Some(digits_value(d))
    } else {
        None
    }
}

proof fn lemma_digits_grow(s: Seq<char>, k: int)
    requires
        0 <= k <= s.len(),
        all_digits(s),
    ensures
        digits_value(s.take(k)) <= digits_value(s),
    decreases s.len() - k,
{
    if k < s.len() {
        lemma_digits_grow(s, k + 1);
        assert(s.take(k + 1).drop_last() =~= s.take(k));
    } else {
        assert(s.take(k) =~= s);
    }
}

/// The value of a digit.
pub fn digit_of(c: char) -> (r: Option<u64>)
    ensures
        r is Some == digit_value(c) is Some,
        r matches Some(x) ==> x < 10 && digit_value(c) == Some(x as nat),
{
    let u: u32 = c as u32;
    if u < 48 || u > 57 {
        None
    } else {
        Some((u - 48) as u64)
    }
}

/// Reads a number that is not above `max`.
pub fn read_count(s: &[char], max: u64) -> (r: Option<u64>)
    ensures
        match count_in(s@, max as nat) {
            Some(n) => r == Some(n as u64),
            None => r is None,
        },
{
    let n: usize = s.len();
    let from: usize = if n > 0 && s[0] == '+' {
        1
    } else {
        0
    };
    let ghost d = unsigned(s@);
    assert(d =~= s@.skip(from as int));
    if from == n {
        return None;
    }
    let mut v: u64 = 0;
    let mut i: usize = from;
    assert(d.take(0) =~= Seq::empty());
    while i < n
        invariant
            from <= i <= n == s@.len(),
            d == s@.skip(from as int),
            d == unsigned(s@),
            v == digits_value(d.take(i - from)),
            v <= max,
            forall|k: int| 0 <= k < i - from ==> digit_value(#[trigger] d[k]) is Some,
        decreases n - i,
    {
        let c: char = s[i];
        let ghost k = i - from;
        assert(d[k] == c);
        let x: u64 = match digit_of(c) {
            Some(x) => x,
            None => {
                assert(digit_value(d[k]) is None);
                return None;
            },
        };
        assert(d.take(k + 1).drop_last() =~= d.take(k));
        assert(digits_value(d.take(k + 1)) == 10 * v + x);
        if v > max / 10 || x > max || v * 10 > max - x {
            proof {
                assert(10 * v + x > max);
                if all_digits(d) {
                    lemma_digits_grow(d, k + 1);
                }
            }
            return None;
        }
        v = v * 10 + x;
        i = i + 1;
    }
    assert(d.take(n - from) =~= d);
    Some(v)
}

/// A number that can be read from text and written to it.
pub trait TextNumber: Scalar {
    /// The number that a text stands for.
    open spec fn read_spec(s: Seq<char>) -> Option<Self> {
        arbitrary()
    }

    /// The text of the number.
    open spec fn shown_spec(self) -> Seq<char> {
        arbitrary()
    }

    /// Reads a number; `None` for a text that is not one.
    fn read(s: &[char]) -> (r: Option<Self>)
        ensures
            r == Self::read_spec(s@),
    ;

    /// Appends the number to a text.
    fn show(self, out: &mut String)
        ensures
            final(out)@ == old(out)@ + self.shown_spec(),
    ;
}

/// Decimal digits read back as the number they were written for.
pub proof fn law_decimal_reads_back(n: nat)
    ensures
        decimal(n).len() > 0,
        all_digits(decimal(n)),
        digits_value(decimal(n)) == n,
        count_in(decimal(n), n) == Some(n),
    decreases n,
{
    reveal_with_fuel(digits_value, 2);
    if n < 10 {
        let s = decimal(n);
        assert(s.drop_last() =~= Seq::empty());
        assert(digit_value(s[0]) == Some(n));
    } else {
        law_decimal_reads_back(n / 10);
        let s = decimal(n);
        assert(s.drop_last() =~= decimal(n / 10));
        assert(digit_value(s.last()) == Some((n % 10) as nat));
    }
    assert(decimal(n)[0] != '+');
}

} // verus!
