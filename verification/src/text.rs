//! Text as sequences of characters: order, words, fields and numbers.

use vstd::prelude::*;

verus! {

/// `String::push` appends one character.
pub assume_specification[ String::push ](s: &mut String, c: char)
    ensures
        final(s)@ == old(s)@.push(c),
;

/// How two texts stand to each other in the order of the library.
#[derive(Clone, Copy, Debug, PartialEq, Eq, Structural)]
pub enum Order {
    Before,
    Same,
    After,
}

/// `a` comes before `b`: at the first place where they differ, `a` has
/// the character of the lower code point, or `a` has ended and `b` has not.
pub open spec fn precedes(a: Seq<char>, b: Seq<char>) -> bool
    decreases a.len(),
{
    if b.len() == 0 {
        false
    } else if a.len() == 0 {
        true
    } else if a[0] == b[0] {
        precedes(a.skip(1), b.skip(1))
    } else {
        a[0] < b[0]
    }
}

/// The three-way comparison that `precedes` induces.
pub open spec fn order_of(a: Seq<char>, b: Seq<char>) -> Order {
    if a == b {
        Order::Same
    } else if precedes(a, b) {
        Order::Before
    } else {
        Order::After
    }
}

/// No text comes before itself.
pub proof fn lemma_precedes_irreflexive(a: Seq<char>)
    ensures
        !precedes(a, a),
    decreases a.len(),
{
    if a.len() > 0 {
        lemma_precedes_irreflexive(a.skip(1));
    }
}

/// The order is transitive.
pub proof fn lemma_precedes_transitive(a: Seq<char>, b: Seq<char>, c: Seq<char>)
    requires
        precedes(a, b),
        precedes(b, c),
    ensures
        precedes(a, c),
    decreases a.len(),
{
    if a.len() > 0 && a[0] == b[0] && b[0] == c[0] {
        lemma_precedes_transitive(a.skip(1), b.skip(1), c.skip(1));
    }
}

/// Of two different texts one comes before the other.
pub proof fn lemma_precedes_connected(a: Seq<char>, b: Seq<char>)
    requires
        !precedes(a, b),
        !precedes(b, a),
    ensures
        a == b,
    decreases a.len(),
{
    if a.len() > 0 && b.len() > 0 {
        lemma_precedes_connected(a.skip(1), b.skip(1));
        assert(a =~= seq![a[0]] + a.skip(1));
        assert(b =~= seq![b[0]] + b.skip(1));
    } else {
        assert(a =~= b);
    }
}

/// No two texts come before each other.
pub proof fn lemma_precedes_asymmetric(a: Seq<char>, b: Seq<char>)
    requires
        precedes(a, b),
    ensures
        !precedes(b, a),
        a != b,
{
    if precedes(b, a) {
        lemma_precedes_transitive(a, b, a);
    }
    lemma_precedes_irreflexive(a);
}

/// A common prefix does not decide the order.
proof fn lemma_precedes_after_prefix(a: Seq<char>, b: Seq<char>, n: int)
    requires
        0 <= n <= a.len(),
        n <= b.len(),
        forall|j: int| 0 <= j < n ==> a[j] == b[j],
    ensures
        precedes(a, b) == precedes(a.skip(n), b.skip(n)),
    decreases n,
{
    if n > 0 {
        assert(a[0] == b[0]);
        assert forall|j: int| 0 <= j < n - 1 implies a.skip(1)[j] == b.skip(1)[j] by {
            assert(a[j + 1] == b[j + 1]);
        }
        lemma_precedes_after_prefix(a.skip(1), b.skip(1), n - 1);
        assert(a.skip(1).skip(n - 1) =~= a.skip(n));
        assert(b.skip(1).skip(n - 1) =~= b.skip(n));
    } else {
        assert(a.skip(0) =~= a);
        assert(b.skip(0) =~= b);
    }
}

/// The characters of a text.
pub fn to_chars(text: &str) -> (v: Vec<char>)
    ensures
        v@ == text@,
{
    let mut v: Vec<char> = Vec::new();
    for c in it: text.chars()
        invariant
            v@ == it.seq().take(it.index() as int),
    {
        v.push(c);
    }
    v
}

/// The text made of the characters from `start` up to `end`.
pub fn text_of(chars: &Vec<char>, start: usize, end: usize) -> (s: String)
    requires
        start <= end <= chars.len(),
    ensures
        s@ == chars@.subrange(start as int, end as int),
{
    let mut s = String::new();
    let mut i: usize = start;
    while i < end
        invariant
            start <= i <= end <= chars.len(),
            s@ == chars@.subrange(start as int, i as int),
        decreases end - i,
    {
        s.push(chars[i]);
        assert(chars@.subrange(start as int, i as int).push(chars@[i as int])
            =~= chars@.subrange(start as int, i + 1));
        i = i + 1;
    }
    s
}

/// Compares two texts by the code points of their characters.
pub fn compare(a: &str, b: &str) -> (r: Order)
    ensures
        r == order_of(a@, b@),
{
    let x = to_chars(a);
    let y = to_chars(b);
    let mut i: usize = 0;
    while i < x.len() && i < y.len()
        invariant
            i <= x.len(),
            i <= y.len(),
            x@ == a@,
            y@ == b@,
            forall|j: int| 0 <= j < i ==> x@[j] == y@[j],
        decreases x.len() - i,
    {
        if x[i] != y[i] {
            proof {
                lemma_precedes_after_prefix(x@, y@, i as int);
                lemma_precedes_after_prefix(y@, x@, i as int);
                let xs = x@.skip(i as int);
                let ys = y@.skip(i as int);
                assert(xs[0] == x@[i as int]);
                assert(ys[0] == y@[i as int]);
                assert(xs.len() > 0 && ys.len() > 0);
            }
            if x[i] < y[i] {
                proof {
                    lemma_precedes_asymmetric(x@, y@);
                }
                return Order::Before;
            } else {
                proof {
                    assert(precedes(y@, x@));
                    lemma_precedes_asymmetric(y@, x@);
                }
                return Order::After;
            }
        }
        i = i + 1;
    }
    proof {
        lemma_precedes_after_prefix(x@, y@, i as int);
        lemma_precedes_after_prefix(y@, x@, i as int);
    }
    if i < y.len() {
        proof {
            lemma_precedes_asymmetric(x@, y@);
        }
        Order::Before
    } else if i < x.len() {
        proof {
            assert(precedes(y@, x@));
            lemma_precedes_asymmetric(y@, x@);
        }
        Order::After
    } else {
        assert(x@ =~= y@);
        Order::Same
    }
}

/// What parts a text: any blank character, or one given character.
#[derive(Clone, Copy, Debug, PartialEq, Eq, Structural)]
pub enum Separator {
    Blank,
    Is(char),
}

/// The blank characters of ASCII: space, tab, line feed, form feed and
/// carriage return.
pub open spec fn is_blank(c: char) -> bool {
    c == ' ' || c == '\t' || c == '\n' || c == '\x0C' || c == '\r'
}

impl Separator {
    /// Whether the character parts a text.
    pub open spec fn parts(self, c: char) -> bool {
        match self {
            Separator::Blank => is_blank(c),
            Separator::Is(d) => c == d,
        }
    }

    /// Whether the character parts a text.
    pub fn parts_at(&self, c: char) -> (b: bool)
        ensures
            b == self.parts(c),
    {
        match self {
            Separator::Blank => c == ' ' || c == '\t' || c == '\n' || c == '\x0C' || c == '\r',
            Separator::Is(d) => c == *d,
        }
    }
}

/// The bounds of the runs that a scan finds from `i` on, where a run that
/// began at `start` is under way. A run is a longest stretch without a
/// separator that is not empty.
pub open spec fn run_bounds_from(s: Seq<char>, sep: Separator, start: int, i: int) -> Seq<
    (int, int),
>
    decreases s.len() - i,
{
    let found = if start < i {
        seq![(start, i)]
    } else {
        Seq::<(int, int)>::empty()
    };
    if i >= s.len() {
        found
    } else if sep.parts(s[i]) {
        found + run_bounds_from(s, sep, i + 1, i + 1)
    } else {
        run_bounds_from(s, sep, start, i + 1)
    }
}

/// The bounds of the runs of a text.
pub open spec fn run_bounds(s: Seq<char>, sep: Separator) -> Seq<(int, int)> {
    run_bounds_from(s, sep, 0, 0)
}

/// The runs of a text: its longest non-empty stretches without a
/// separator, from left to right.
pub open spec fn runs(s: Seq<char>, sep: Separator) -> Seq<Seq<char>> {
    run_bounds(s, sep).map_values(|b: (int, int)| s.subrange(b.0, b.1))
}

/// The words of a text: its runs between blank characters.
pub open spec fn words_of(s: Seq<char>) -> Seq<Seq<char>> {
    runs(s, Separator::Blank)
}

/// The texts of a vector of slices.
pub open spec fn texts_of(words: Seq<&str>) -> Seq<Seq<char>> {
    words.map_values(|w: &str| w@)
}

/// The texts of a vector of strings.
pub open spec fn strings_of(words: Seq<String>) -> Seq<Seq<char>> {
    words.map_values(|w: String| w@)
}

/// The words joined by single spaces.
pub open spec fn joined(words: Seq<Seq<char>>) -> Seq<char>
    decreases words.len(),
{
    if words.len() == 0 {
        Seq::<char>::empty()
    } else if words.len() == 1 {
        words[0]
    } else {
        joined(words.drop_last()) + seq![' '] + words.last()
    }
}

/// The bounds of the runs of a text, as machine integers.
fn find_runs(chars: &Vec<char>, sep: Separator) -> (bounds: Vec<(usize, usize)>)
    ensures
        bounds@.len() == run_bounds(chars@, sep).len(),
        forall|k: int|
            0 <= k < bounds@.len() ==> {
                &&& (#[trigger] bounds@[k]).0 as int == run_bounds(chars@, sep)[k].0
                &&& bounds@[k].1 as int == run_bounds(chars@, sep)[k].1
                &&& bounds@[k].0 < bounds@[k].1 <= chars@.len()
            },
{
    let ghost s = chars@;
    let ghost whole = run_bounds(s, sep);
    let mut bounds: Vec<(usize, usize)> = Vec::new();
    let mut start: usize = 0;
    let mut i: usize = 0;
    while i < chars.len()
        invariant
            start <= i <= chars.len(),
            s == chars@,
            whole == run_bounds(s, sep),
            bounds@.len() + run_bounds_from(s, sep, start as int, i as int).len() == whole.len(),
            forall|k: int|
                0 <= k < bounds@.len() ==> {
                    &&& (#[trigger] bounds@[k]).0 as int == whole[k].0
                    &&& bounds@[k].1 as int == whole[k].1
                    &&& bounds@[k].0 < bounds@[k].1 <= s.len()
                },
            forall|k: int|
                0 <= k < run_bounds_from(s, sep, start as int, i as int).len() ==> whole[bounds@.len()
                    + k] == #[trigger] run_bounds_from(s, sep, start as int, i as int)[k],
        decreases chars.len() - i,
    {
        let ghost rest = run_bounds_from(s, sep, start as int, i as int);
        let ghost done = bounds@.len() as int;
        if sep.parts_at(chars[i]) {
            if start < i {
                assert(rest[0] == (start as int, i as int));
                assert(whole[done + 0] == rest[0]);
                bounds.push((start, i));
            }
            let ghost next = run_bounds_from(s, sep, i + 1, i + 1);
            assert forall|k: int| 0 <= k < next.len() implies whole[bounds@.len() + k]
                == #[trigger] next[k] by {
                if start < i {
                    assert(rest[k + 1] == next[k]);
                    assert(whole[done + (k + 1)] == rest[k + 1]);
                } else {
                    assert(rest[k] == next[k]);
                    assert(whole[done + k] == rest[k]);
                }
            }
            start = i + 1;
        }
        i = i + 1;
    }
    if start < i {
        let ghost rest = run_bounds_from(s, sep, start as int, i as int);
        assert(rest[0] == (start as int, i as int));
        assert(whole[bounds@.len() as int + 0] == rest[0]);
        bounds.push((start, i));
    }
    bounds
}

/// The runs of a text, as slices of it.
pub fn split_runs<'a>(text: &'a str, sep: Separator) -> (pieces: Vec<&'a str>)
    ensures
        texts_of(pieces@) == runs(text@, sep),
{
    let chars = to_chars(text);
    let bounds = find_runs(&chars, sep);
    let mut pieces: Vec<&'a str> = Vec::new();
    let mut k: usize = 0;
    while k < bounds.len()
        invariant
            k <= bounds.len(),
            chars@ == text@,
            pieces@.len() == k,
            bounds@.len() == run_bounds(chars@, sep).len(),
            forall|n: int|
                0 <= n < bounds@.len() ==> {
                    &&& (#[trigger] bounds@[n]).0 as int == run_bounds(chars@, sep)[n].0
                    &&& bounds@[n].1 as int == run_bounds(chars@, sep)[n].1
                    &&& bounds@[n].0 < bounds@[n].1 <= chars@.len()
                },
            forall|n: int| 0 <= n < k ==> (#[trigger] pieces@[n])@ == runs(text@, sep)[n],
        decreases bounds.len() - k,
    {
        let (from, to) = bounds[k];
        pieces.push(text.substring_char(from, to));
        k = k + 1;
    }
    assert(texts_of(pieces@) =~= runs(text@, sep));
    pieces
}

/// The runs of a text, as texts of their own.
pub fn split_runs_owned(text: &str, sep: Separator) -> (pieces: Vec<String>)
    ensures
        strings_of(pieces@) == runs(text@, sep),
{
    let chars = to_chars(text);
    let bounds = find_runs(&chars, sep);
    let mut pieces: Vec<String> = Vec::new();
    let mut k: usize = 0;
    while k < bounds.len()
        invariant
            k <= bounds.len(),
            chars@ == text@,
            pieces@.len() == k,
            bounds@.len() == run_bounds(chars@, sep).len(),
            forall|n: int|
                0 <= n < bounds@.len() ==> {
                    &&& (#[trigger] bounds@[n]).0 as int == run_bounds(chars@, sep)[n].0
                    &&& bounds@[n].1 as int == run_bounds(chars@, sep)[n].1
                    &&& bounds@[n].0 < bounds@[n].1 <= chars@.len()
                },
            forall|n: int| 0 <= n < k ==> (#[trigger] pieces@[n])@ == runs(text@, sep)[n],
        decreases bounds.len() - k,
    {
        let (from, to) = bounds[k];
        pieces.push(text_of(&chars, from, to));
        k = k + 1;
    }
    assert(strings_of(pieces@) =~= runs(text@, sep));
    pieces
}

/// The words of a line.
pub fn split_words<'a>(line: &'a str) -> (words: Vec<&'a str>)
    ensures
        texts_of(words@) == words_of(line@),
{
    split_runs(line, Separator::Blank)
}

/// The words from the one at `from` on, joined by single spaces.
pub fn join_words(words: &Vec<&str>, from: usize) -> (text: String)
    requires
        from <= words.len(),
    ensures
        text@ == joined(texts_of(words@).skip(from as int)),
{
    let ghost all = texts_of(words@).skip(from as int);
    let mut text = String::new();
    let mut k: usize = from;
    assert(all.take(0) =~= Seq::<Seq<char>>::empty());
    while k < words.len()
        invariant
            from <= k <= words.len(),
            all == texts_of(words@).skip(from as int),
            text@ == joined(all.take(k - from)),
        decreases words.len() - k,
    {
        let ghost before = all.take(k - from);
        let ghost now = all.take(k - from + 1);
        assert(now.drop_last() =~= before);
        assert(now.last() == words@[k as int]@);
        if k > from {
            text.push(' ');
        } else {
            assert(before.len() == 0);
            assert(Seq::<char>::empty() + words@[k as int]@ =~= words@[k as int]@);
        }
        text.append(words[k]);
        k = k + 1;
    }
    assert(all.take(k - from) =~= all);
    text
}

/// Whether `text` begins with `prefix`.
pub fn starts_with(text: &str, prefix: &str) -> (b: bool)
    ensures
        b == prefix@.is_prefix_of(text@),
{
    let t = to_chars(text);
    let p = to_chars(prefix);
    if p.len() > t.len() {
        return false;
    }
    let mut i: usize = 0;
    while i < p.len()
        invariant
            i <= p.len() <= t.len(),
            t@ == text@,
            p@ == prefix@,
            forall|j: int| 0 <= j < i ==> t@[j] == p@[j],
        decreases p.len() - i,
    {
        if t[i] != p[i] {
            assert(!(p@ =~= t@.subrange(0, p@.len() as int))) by {
                assert(t@.subrange(0, p@.len() as int)[i as int] == t@[i as int]);
            }
            return false;
        }
        i = i + 1;
    }
    assert(p@ =~= t@.subrange(0, p@.len() as int));
    true
}

/// Whether the character is one of the ten digits.
pub open spec fn is_digit(c: char) -> bool {
    '0' <= c <= '9'
}

/// The digit that stands for a number from 0 to 9.
pub open spec fn digit_char(n: int) -> char {
    ((48 + n) as u8) as char
}

/// A number written in decimal digits, without leading zeros.
pub open spec fn digits_of(n: nat) -> Seq<char>
    decreases n,
{
    if n < 10 {
        seq![digit_char(n as int)]
    } else {
        digits_of(n / 10).push(digit_char((n % 10) as int))
    }
}

/// A number written in decimal digits, with zeros in front where it has
/// fewer than `width` digits.
pub open spec fn padded(n: nat, width: nat) -> Seq<char> {
    let digits = digits_of(n);
    if digits.len() >= width {
        digits
    } else {
        Seq::new((width - digits.len()) as nat, |i: int| '0') + digits
    }
}

/// The number that a digit stands for.
pub open spec fn digit_value(c: char) -> int {
    (c as u32) as int - 48
}

/// Every character is a digit.
pub open spec fn all_digits(s: Seq<char>) -> bool {
    forall|i: int| 0 <= i < s.len() ==> is_digit(#[trigger] s[i])
}

/// The number that a run of digits stands for.
pub open spec fn number_value(s: Seq<char>) -> int
    decreases s.len(),
{
    if s.len() == 0 {
        0
    } else {
        number_value(s.drop_last()) * 10 + digit_value(s.last())
    }
}

/// The number that a text stands for: digits, with `+` before them or
/// not, that give a number within the range of `usize`.
pub open spec fn unsigned_of(s: Seq<char>) -> Option<usize> {
    let digits = if s.len() > 0 && s[0] == '+' {
        s.skip(1)
    } else {
        s
    };
    if digits.len() > 0 && all_digits(digits) && number_value(digits) <= usize::MAX {
        Some(number_value(digits) as usize)
    } else {
        None
    }
}

/// A run of digits stands for no smaller a number than any of its
/// beginnings.
pub proof fn lemma_number_value_grows(s: Seq<char>, k: int)
    requires
        all_digits(s),
        0 <= k <= s.len(),
    ensures
        0 <= number_value(s.take(k)) <= number_value(s),
    decreases s.len(),
{
    if s.len() == 0 {
        assert(s.take(k) =~= s);
    } else if k == s.len() {
        assert(s.take(k) =~= s);
        lemma_number_value_grows(s.drop_last(), k - 1);
        assert(is_digit(s.last()));
    } else {
        assert(s.drop_last().take(k) =~= s.take(k));
        assert(is_digit(s.last()));
        lemma_number_value_grows(s.drop_last(), k);
    }
}

/// Reads a number from the characters from `from` up to `to`.
pub fn parse_unsigned_in(chars: &Vec<char>, from: usize, to: usize) -> (r: Option<usize>)
    requires
        from <= to <= chars.len(),
    ensures
        r == unsigned_of(chars@.subrange(from as int, to as int)),
{
    let ghost s = chars@.subrange(from as int, to as int);
    let start: usize = if from < to && chars[from] == '+' {
        from + 1
    } else {
        from
    };
    let ghost digits = chars@.subrange(start as int, to as int);
    assert(digits =~= if s.len() > 0 && s[0] == '+' {
        s.skip(1)
    } else {
        s
    });
    if start == to {
        return None;
    }
    let mut value: usize = 0;
    let mut i: usize = start;
    assert(digits.take(0) =~= Seq::<char>::empty());
    while i < to
        invariant
            from <= start <= i <= to <= chars.len(),
            start < to,
            digits == chars@.subrange(start as int, to as int),
            unsigned_of(chars@.subrange(from as int, to as int)) == if all_digits(digits)
                && number_value(digits) <= usize::MAX {
                Some(number_value(digits) as usize)
            } else {
                None
            },
            all_digits(digits.take(i - start)),
            value == number_value(digits.take(i - start)),
        decreases to - i,
    {
        let c = chars[i];
        if !('0' <= c && c <= '9') {
            assert(!is_digit(digits[i - start]));
            return None;
        }
        let d: usize = (c as u32 - 48) as usize;
        let ghost now = digits.take(i - start + 1);
        assert(now.drop_last() =~= digits.take(i - start));
        assert(now.last() == c);
        assert(all_digits(now)) by {
            assert forall|j: int| 0 <= j < now.len() implies is_digit(#[trigger] now[j]) by {
                if j < now.len() - 1 {
                    assert(now[j] == digits.take(i - start)[j]);
                }
            }
        }
        proof {
            if all_digits(digits) {
                lemma_number_value_grows(digits, i - start + 1);
            }
        }
        value = match value.checked_mul(10) {
            Some(tens) => match tens.checked_add(d) {
                Some(sum) => sum,
                None => {
                    return None;
                },
            },
            None => {
                return None;
            },
        };
        i = i + 1;
    }
    assert(digits.take(i - start) =~= digits);
    Some(value)
}

/// Reads a number from a text.
pub fn parse_unsigned(text: &str) -> (r: Option<usize>)
    ensures
        r == unsigned_of(text@),
{
    let chars = to_chars(text);
    assert(chars@.subrange(0, chars@.len() as int) =~= text@);
    parse_unsigned_in(&chars, 0, chars.len())
}

/// Where the field that begins at `from` ends: at the next comma, or at
/// the end of the text.
pub open spec fn field_end(s: Seq<char>, from: int) -> int
    decreases s.len() - from,
{
    if from >= s.len() || s[from] == ',' {
        from
    } else {
        field_end(s, from + 1)
    }
}

/// Finds the end of the field that begins at `from`.
pub fn find_field_end(chars: &Vec<char>, from: usize) -> (end: usize)
    requires
        from <= chars.len(),
    ensures
        end == field_end(chars@, from as int),
        from <= end <= chars.len(),
{
    let mut i: usize = from;
    while i < chars.len() && chars[i] != ','
        invariant
            from <= i <= chars.len(),
            field_end(chars@, from as int) == field_end(chars@, i as int),
        decreases chars.len() - i,
    {
        i = i + 1;
    }
    i
}

} // verus!
