//! Text of file names: decimal numbers, fields between dots, and the order in
//! which names sort.
use vstd::prelude::*;

verus! {

/// `c` is one of the ten ASCII digits.
pub open spec fn is_digit(c: char) -> bool {
    '0' <= c <= '9'
}

/// The number that the digit `c` stands for.
pub open spec fn digit_value(c: char) -> nat {
    (c as int - '0' as int) as nat
}

/// The digit that stands for `d`, which is below ten.
pub open spec fn digit_char(d: nat) -> char {
    ('0' as int + d) as char
}

/// Every character of `s` is a digit.
pub open spec fn all_digits(s: Seq<char>) -> bool {
    forall|i: int| 0 <= i < s.len() ==> is_digit(#[trigger] s[i])
}

/// The number that the digits `s` spell in base ten, most significant first.
pub open spec fn decimal_value(s: Seq<char>) -> nat
    decreases s.len(),
{
    if s.len() == 0 {
        0
    } else {
        10 * decimal_value(s.drop_last()) + digit_value(s.last())
    }
}

/// The digits of `n` in base ten, without leading zeros.
pub open spec fn decimal(n: nat) -> Seq<char>
    decreases n,
{
    if n < 10 {
        seq![digit_char(n)]
    } else {
        decimal(n / 10).push(digit_char(n % 10))
    }
}

/// `s` without one leading plus sign.
pub open spec fn unsigned_part(s: Seq<char>) -> Seq<char> {
    if s.len() > 0 && s[0] == '+' {
        s.skip(1)
    } else {
        s
    }
}

/// The number that `s` spells: an optional plus sign, then one digit or more,
/// with a value that fits in `usize`. `None` for every other text.
pub open spec fn parsed(s: Seq<char>) -> Option<usize> {
    let digits = unsigned_part(s);
    if digits.len() > 0 && all_digits(digits) && decimal_value(digits) <= usize::MAX {
        Some(decimal_value(digits) as usize)
    } else {
        None
    }
}

/// The position of the first dot of `s` at or behind `from`, or the length of `s`.
pub open spec fn dot_from(s: Seq<char>, from: int) -> int
    decreases s.len() - from,
{
    if from >= s.len() {
        s.len() as int
    } else if s[from] == '.' {
        from
    } else {
        dot_from(s, from + 1)
    }
}

/// The pieces of `s` between its dots, in order: one more than it has dots.
pub open spec fn fields(s: Seq<char>) -> Seq<Seq<char>> {
    fields_from(s, 0)
}

/// The pieces of `s` between its dots, from position `from` on.
pub open spec fn fields_from(s: Seq<char>, from: int) -> Seq<Seq<char>>
    decreases s.len() - from,
    when 0 <= from <= s.len()
    via fields_from_decreases
{
    let dot = dot_from(s, from);
    if dot >= s.len() {
        seq![s.subrange(from, s.len() as int)]
    } else {
        seq![s.subrange(from, dot)] + fields_from(s, dot + 1)
    }
}

#[via_fn]
proof fn fields_from_decreases(s: Seq<char>, from: int) {
    lemma_dot_from(s, from);
}

/// The first dot lies where `dot_from` says, and no dot comes before it.
pub proof fn lemma_dot_from(s: Seq<char>, from: int)
    requires
        0 <= from <= s.len(),
    ensures
        from <= dot_from(s, from) <= s.len(),
        dot_from(s, from) < s.len() ==> s[dot_from(s, from)] == '.',
        forall|i: int| from <= i < dot_from(s, from) ==> s[i] != '.',
    decreases s.len() - from,
{
    if from < s.len() && s[from] != '.' {
        lemma_dot_from(s, from + 1);
    }
}

/// The one place where the first dot can be.
pub proof fn lemma_dot_from_is(s: Seq<char>, from: int, at: int)
    requires
        0 <= from <= at <= s.len(),
        at < s.len() ==> s[at] == '.',
        forall|i: int| from <= i < at ==> s[i] != '.',
    ensures
        dot_from(s, from) == at,
{
    lemma_dot_from(s, from);
}

/// `a` comes strictly before `b` in the order of their characters, first
/// difference first; a proper prefix comes before what it is a prefix of.
pub open spec fn sorts_before(a: Seq<char>, b: Seq<char>) -> bool
    decreases a.len(),
{
    if b.len() == 0 {
        false
    } else if a.len() == 0 {
        true
    } else if a[0] == b[0] {
        sorts_before(a.skip(1), b.skip(1))
    } else {
        a[0] < b[0]
    }
}

/// The text that a string holds, if there is one.
pub open spec fn text_of(s: Option<String>) -> Option<Seq<char>> {
    match s {
        Some(text) => Some(text@),
        None => None,
    }
}

/// The names that the strings hold.
pub open spec fn texts(v: Seq<String>) -> Seq<Seq<char>> {
    v.map_values(|s: String| s@)
}

/// Each text comes before, or is equal to, every text behind it.
pub open spec fn sorted(v: Seq<Seq<char>>) -> bool {
    forall|i: int, j: int| 0 <= i < j < v.len() ==> !sorts_before(#[trigger] v[j], #[trigger] v[i])
}

/// What `decimal` writes are digits only, and they spell the number.
pub proof fn lemma_decimal(n: nat)
    ensures
        decimal(n).len() > 0,
        all_digits(decimal(n)),
        decimal_value(decimal(n)) == n,
    decreases n,
{
    reveal_with_fuel(decimal_value, 2);
    if n < 10 {
        assert(decimal(n).drop_last() =~= Seq::<char>::empty());
    } else {
        lemma_decimal(n / 10);
        assert(decimal(n).drop_last() =~= decimal(n / 10));
        assert forall|i: int| 0 <= i < decimal(n).len() implies is_digit(#[trigger] decimal(n)[i]) by {
            if i < decimal(n).len() - 1 {
                assert(decimal(n)[i] == decimal(n / 10)[i]);
            }
        }
    }
}

/// Reading what was written gives the number back.
pub proof fn law_decimal_reads_back(n: usize)
    ensures
        parsed(decimal(n as nat)) == Some(n),
{
    lemma_decimal(n as nat);
    assert(is_digit(decimal(n as nat)[0]));
    assert(unsigned_part(decimal(n as nat)) == decimal(n as nat));
}

/// A number is written with its digits only, the most significant first, and without
/// leading zeros.
pub proof fn law_decimal_is_plain(n: nat)
    ensures
        decimal(n).len() > 0,
        all_digits(decimal(n)),
        decimal_value(decimal(n)) == n,
        decimal(n)[0] == '0' <==> n == 0,
        n == 0 ==> decimal(n).len() == 1,
    decreases n,
{
    lemma_decimal(n);
    if n >= 10 {
        law_decimal_is_plain(n / 10);
        assert(decimal(n)[0] == decimal(n / 10)[0]);
    }
}

/// A digit more makes ten times as much and the digit.
pub proof fn law_decimal_value(s: Seq<char>, c: char)
    requires
        is_digit(c),
    ensures
        decimal_value(Seq::empty()) == 0,
        decimal_value(s.push(c)) == 10 * decimal_value(s) + (c as int - '0' as int),
{
    assert(s.push(c).drop_last() =~= s);
}

/// A text spells a number if and only if it is made of digits, one or more, with or
/// without a plus sign before them, and they stand for the number.
pub proof fn law_parsed(s: Seq<char>, n: usize)
    ensures
        parsed(s) == Some(n) <==> exists|digits: Seq<char>|
            {
                &&& digits.len() > 0
                &&& all_digits(digits)
                &&& #[trigger] decimal_value(digits) == n
                &&& s == digits || s == seq!['+'] + digits
            },
{
    if parsed(s) == Some(n) {
        let digits = unsigned_part(s);
        if s.len() > 0 && s[0] == '+' {
            assert(s =~= seq!['+'] + digits);
        }
        assert(decimal_value(digits) == n);
    }
    if exists|digits: Seq<char>|
        {
            &&& digits.len() > 0
            &&& all_digits(digits)
            &&& #[trigger] decimal_value(digits) == n
            &&& s == digits || s == seq!['+'] + digits
        } {
        let digits = choose|digits: Seq<char>|
            {
                &&& digits.len() > 0
                &&& all_digits(digits)
                &&& #[trigger] decimal_value(digits) == n
                &&& s == digits || s == seq!['+'] + digits
            };
        assert(is_digit(digits[0]));
        if s == seq!['+'] + digits {
            assert(s.skip(1) =~= digits);
        }
        assert(unsigned_part(s) == digits);
    }
}

/// One text comes before another if and only if it is a proper beginning of it, or has
/// the smaller character at the first place where they differ.
pub proof fn law_order_of_texts(a: Seq<char>, b: Seq<char>)
    ensures
        sorts_before(a, b) <==> exists|k: int|
            {
                &&& 0 <= k <= a.len() && k < b.len()
                &&& #[trigger] a.take(k) == b.take(k)
                &&& k == a.len() || a[k] < b[k]
            },
    decreases a.len(),
{
    let x = a.skip(1);
    let y = b.skip(1);
    if a.len() > 0 && b.len() > 0 && a[0] == b[0] {
        law_order_of_texts(x, y);
        if sorts_before(x, y) {
            let k = choose|k: int|
                {
                    &&& 0 <= k <= x.len() && k < y.len()
                    &&& #[trigger] x.take(k) == y.take(k)
                    &&& k == x.len() || x[k] < y[k]
                };
            assert forall|i: int| 0 <= i < k + 1 implies a[i] == b[i] by {
                if i > 0 {
                    assert(x.take(k)[i - 1] == y.take(k)[i - 1]);
                }
            }
            assert(a.take(k + 1) =~= b.take(k + 1));
        }
        if exists|k: int|
            {
                &&& 0 <= k <= a.len() && k < b.len()
                &&& #[trigger] a.take(k) == b.take(k)
                &&& k == a.len() || a[k] < b[k]
            } {
            let k = choose|k: int|
                {
                    &&& 0 <= k <= a.len() && k < b.len()
                    &&& #[trigger] a.take(k) == b.take(k)
                    &&& k == a.len() || a[k] < b[k]
                };
            assert(k > 0);
            assert forall|i: int| 0 <= i < k - 1 implies x[i] == y[i] by {
                assert(a.take(k)[i + 1] == b.take(k)[i + 1]);
            }
            assert(x.take(k - 1) =~= y.take(k - 1));
        }
    } else if a.len() == 0 || b.len() == 0 {
        if b.len() > 0 {
            assert(a.take(0) =~= b.take(0));
        }
    } else {
        if a[0] < b[0] {
            assert(a.take(0) =~= b.take(0));
        }
        if exists|k: int|
            {
                &&& 0 <= k <= a.len() && k < b.len()
                &&& #[trigger] a.take(k) == b.take(k)
                &&& k == a.len() || a[k] < b[k]
            } {
            let k = choose|k: int|
                {
                    &&& 0 <= k <= a.len() && k < b.len()
                    &&& #[trigger] a.take(k) == b.take(k)
                    &&& k == a.len() || a[k] < b[k]
                };
            if k > 0 {
                assert(a.take(k)[0] == b.take(k)[0]);
            }
        }
    }
}

/// Different numbers are written differently.
pub proof fn lemma_decimal_injective(m: nat, n: nat)
    ensures
        decimal(m) == decimal(n) ==> m == n,
{
    lemma_decimal(m);
    lemma_decimal(n);
}

/// More digits never spell a smaller number.
proof fn lemma_decimal_value_monotone(s: Seq<char>, i: int)
    requires
        0 <= i <= s.len(),
        all_digits(s),
    ensures
        decimal_value(s.take(i)) <= decimal_value(s),
    decreases s.len(),
{
    if i == s.len() {
        assert(s.take(i) =~= s);
    } else {
        assert(s.drop_last().take(i) =~= s.take(i));
        lemma_decimal_value_monotone(s.drop_last(), i);
    }
}

/// The characters of `s`, in order.
pub fn to_chars(s: &str) -> (r: Vec<char>)
    ensures
        r@ == s@,
{
    let mut out: Vec<char> = Vec::new();
    for c in it: s.chars()
        invariant
            out@ == it.seq().take(it.index() as int),
            it.seq() == s@,
    {
        out.push(c);
        assert(out@ =~= it.seq().take(it.index() as int + 1));
    }
    assert(out@ =~= s@);
    out
}

/// The number that the text `s` spells, as `str::parse::<usize>` reads it.
pub fn parse_usize(s: &Vec<char>) -> (r: Option<usize>)
    ensures
        r == parsed(s@),
{
    let start: usize = if s.len() > 0 && s[0] == '+' {
        1
    } else {
        0
    };
    let ghost digits = unsigned_part(s@);
    assert(digits =~= s@.skip(start as int));
    if start >= s.len() {
        return None;
    }
    let mut value: usize = 0;
    let mut i: usize = start;
    assert(digits.take(0) =~= Seq::<char>::empty());
    while i < s.len()
        invariant
            start <= i <= s.len(),
            digits == s@.skip(start as int),
            digits == unsigned_part(s@),
            all_digits(digits.take(i - start)),
            decimal_value(digits.take(i - start)) == value,
        decreases s.len() - i,
    {
        let c = s[i];
        assert(c == digits[i - start]);
        if !('0' <= c && c <= '9') {
            return None;
        }
        let d: usize = (c as u32 - '0' as u32) as usize;
        let ghost longer = digits.take(i - start + 1);
        assert(longer.drop_last() =~= digits.take(i - start));
        assert(longer.last() == c);
        assert(decimal_value(longer) == 10 * value + d);
        assert forall|j: int| 0 <= j < longer.len() implies is_digit(#[trigger] longer[j]) by {
            if j < i - start {
                assert(longer[j] == digits.take(i - start)[j]);
            }
        }
        let grown = match value.checked_mul(10) {
            Some(tens) => tens.checked_add(d),
            None => None,
        };
        match grown {
            Some(v) => {
                value = v;
            },
            None => {
                proof {
                    if all_digits(digits) {
                        lemma_decimal_value_monotone(digits, i - start + 1);
                    }
                }
                return None;
            },
        }
        i = i + 1;
    }
    assert(digits.take(s.len() - start) =~= digits);
    Some(value)
}

/// The digit that stands for `d`.
fn digit_text(d: usize) -> (r: &'static str)
    requires
        d < 10,
    ensures
        r@ == seq![digit_char(d as nat)],
{
    proof {
        reveal_strlit("0");
        reveal_strlit("1");
        reveal_strlit("2");
        reveal_strlit("3");
        reveal_strlit("4");
        reveal_strlit("5");
        reveal_strlit("6");
        reveal_strlit("7");
        reveal_strlit("8");
        reveal_strlit("9");
    }
    match d {
        0 => "0",
        1 => "1",
        2 => "2",
        3 => "3",
        4 => "4",
        5 => "5",
        6 => "6",
        7 => "7",
        8 => "8",
        _ => "9",
    }
}

/// The digits of `n`, as `n.to_string()` writes them.
pub fn decimal_string(n: usize) -> (r: String)
    ensures
        r@ == decimal(n as nat),
    decreases n,
{
    if n < 10 {
        String::from_str(digit_text(n))
    } else {
        let mut text = decimal_string(n / 10);
        text.append(digit_text(n % 10));
        text
    }
}

/// `s` begins with `prefix`.
pub open spec fn begins_with(s: Seq<char>, prefix: Seq<char>) -> bool {
    prefix.len() <= s.len() && s.take(prefix.len() as int) == prefix
}

/// Tells whether `s` begins with `prefix`.
pub fn starts_with(s: &Vec<char>, prefix: &Vec<char>) -> (r: bool)
    ensures
        r == begins_with(s@, prefix@),
{
    if s.len() < prefix.len() {
        return false;
    }
    let mut i: usize = 0;
    while i < prefix.len()
        invariant
            i <= prefix.len() <= s.len(),
            forall|j: int| 0 <= j < i ==> s@[j] == prefix@[j],
        decreases prefix.len() - i,
    {
        if s[i] != prefix[i] {
            assert(s@.take(prefix@.len() as int)[i as int] != prefix@[i as int]);
            return false;
        }
        i = i + 1;
    }
    assert(s@.take(prefix@.len() as int) =~= prefix@);
    true
}

/// The characters of `s` from `from` up to, and without, `to`.
pub fn slice_of(s: &Vec<char>, from: usize, to: usize) -> (r: Vec<char>)
    requires
        from <= to <= s.len(),
    ensures
        r@ == s@.subrange(from as int, to as int),
{
    let mut out: Vec<char> = Vec::new();
    let mut i: usize = from;
    while i < to
        invariant
            from <= i <= to <= s.len(),
            out@ == s@.subrange(from as int, i as int),
        decreases to - i,
    {
        out.push(s[i]);
        assert(out@ =~= s@.subrange(from as int, i as int + 1));
        i = i + 1;
    }
    out
}

/// The characters that the vectors hold.
pub open spec fn pieces(v: Seq<Vec<char>>) -> Seq<Seq<char>> {
    v.map_values(|p: Vec<char>| p@)
}

/// The pieces of `s` between its dots, as `split('.')` gives them.
pub fn split_dots(s: &Vec<char>) -> (r: Vec<Vec<char>>)
    ensures
        r.len() > 0,
        pieces(r@) == fields(s@),
{
    let mut out: Vec<Vec<char>> = Vec::new();
    let mut from: usize = 0;
    let mut i: usize = 0;
    while i < s.len()
        invariant
            from <= i <= s.len(),
            forall|j: int| from <= j < i ==> s@[j] != '.',
            pieces(out@) + fields_from(s@, from as int) == fields(s@),
        decreases s.len() - i,
    {
        if s[i] == '.' {
            let piece = slice_of(s, from, i);
            proof {
                lemma_dot_from_is(s@, from as int, i as int);
                let rest = fields_from(s@, i as int + 1);
                assert(pieces(out@) + (seq![piece@] + rest) =~= pieces(out@.push(piece)) + rest);
            }
            out.push(piece);
            from = i + 1;
        }
        i = i + 1;
    }
    let piece = slice_of(s, from, i);
    proof {
        lemma_dot_from_is(s@, from as int, s@.len() as int);
        assert(pieces(out@) + seq![piece@] =~= pieces(out@.push(piece)));
    }
    out.push(piece);
    out
}

/// Nothing comes before itself.
pub proof fn lemma_order_irreflexive(a: Seq<char>)
    ensures
        !sorts_before(a, a),
    decreases a.len(),
{
    if a.len() > 0 {
        lemma_order_irreflexive(a.skip(1));
    }
}

/// Of two texts that come before each other in neither direction, each is the other.
pub proof fn lemma_order_total(a: Seq<char>, b: Seq<char>)
    ensures
        sorts_before(a, b) || sorts_before(b, a) || a == b,
        !(sorts_before(a, b) && sorts_before(b, a)),
    decreases a.len(),
{
    if a.len() > 0 && b.len() > 0 {
        lemma_order_total(a.skip(1), b.skip(1));
        if a[0] == b[0] && a.skip(1) == b.skip(1) {
            assert(a =~= seq![a[0]] + a.skip(1));
            assert(b =~= seq![b[0]] + b.skip(1));
        }
    } else if a.len() == 0 && b.len() == 0 {
        assert(a =~= b);
    }
}

/// What comes before the earlier of two texts comes before the later one.
pub proof fn lemma_order_transitive(a: Seq<char>, b: Seq<char>, c: Seq<char>)
    requires
        !sorts_before(b, a),
        !sorts_before(c, b),
    ensures
        !sorts_before(c, a),
    decreases a.len(),
{
    if a.len() > 0 && c.len() > 0 && b.len() > 0 {
        if a[0] == b[0] && b[0] == c[0] {
            lemma_order_transitive(a.skip(1), b.skip(1), c.skip(1));
        }
    }
}

/// Texts of one length that differ decide the order, whatever follows them.
pub proof fn lemma_order_head(a: Seq<char>, b: Seq<char>, x: Seq<char>, y: Seq<char>)
    requires
        a.len() == b.len(),
        sorts_before(a, b),
    ensures
        sorts_before(a + x, b + y),
    decreases a.len(),
{
    assert((a + x)[0] == a[0] && (b + y)[0] == b[0]);
    if a[0] == b[0] {
        lemma_order_head(a.skip(1), b.skip(1), x, y);
        assert((a + x).skip(1) =~= a.skip(1) + x);
        assert((b + y).skip(1) =~= b.skip(1) + y);
    }
}

/// What two texts have in common at their beginning does not matter.
pub proof fn lemma_order_prefix(p: Seq<char>, a: Seq<char>, b: Seq<char>)
    ensures
        sorts_before(p + a, p + b) == sorts_before(a, b),
    decreases p.len(),
{
    if p.len() > 0 {
        lemma_order_prefix(p.skip(1), a, b);
        assert((p + a)[0] == p[0] && (p + b)[0] == p[0]);
        assert((p + a).skip(1) =~= p.skip(1) + a);
        assert((p + b).skip(1) =~= p.skip(1) + b);
    } else {
        assert(p + a =~= a);
        assert(p + b =~= b);
    }
}

/// Tells whether `a` comes strictly before `b`.
pub fn is_before(a: &Vec<char>, b: &Vec<char>) -> (r: bool)
    ensures
        r == sorts_before(a@, b@),
{
    let mut i: usize = 0;
    assert(a@.skip(0) =~= a@);
    assert(b@.skip(0) =~= b@);
    loop
        invariant
            i <= a.len(),
            i <= b.len(),
            sorts_before(a@, b@) == sorts_before(a@.skip(i as int), b@.skip(i as int)),
        decreases a.len() - i,
    {
        if i == b.len() {
            return false;
        }
        if i == a.len() {
            return true;
        }
        assert(a@.skip(i as int)[0] == a@[i as int]);
        assert(b@.skip(i as int)[0] == b@[i as int]);
        if a[i] != b[i] {
            return a[i] < b[i];
        }
        assert(a@.skip(i as int).skip(1) =~= a@.skip(i as int + 1));
        assert(b@.skip(i as int).skip(1) =~= b@.skip(i as int + 1));
        i = i + 1;
    }
}

/// The first place in the sorted names `v` behind every name that `name` does
/// not come before.
fn place_of(v: &Vec<String>, name: &String) -> (r: usize)
    requires
        sorted(texts(v@)),
    ensures
        r <= v.len(),
        forall|i: int| 0 <= i < r ==> !sorts_before(name@, #[trigger] v@[i]@),
        forall|i: int| r <= i < v.len() ==> sorts_before(name@, #[trigger] v@[i]@),
{
    let chars = to_chars(name.as_str());
    let mut r: usize = v.len();
    while r > 0
        invariant
            r <= v.len(),
            chars@ == name@,
            sorted(texts(v@)),
            forall|i: int| r <= i < v.len() ==> sorts_before(name@, #[trigger] v@[i]@),
        decreases r,
    {
        let other = to_chars(v[r - 1].as_str());
        if !is_before(&chars, &other) {
            proof {
                assert forall|i: int| 0 <= i < r implies !sorts_before(name@, #[trigger] v@[i]@) by {
                    if i < r - 1 {
                        assert(!sorts_before(texts(v@)[r - 1], texts(v@)[i]));
                        lemma_order_transitive(v@[i]@, v@[r - 1]@, name@);
                    }
                }
            }
            return r;
        }
        r = r - 1;
    }
    r
}

/// A name put in among others is one more of them.
proof fn lemma_texts_insert(v: Seq<String>, at: int, name: String)
    requires
        0 <= at <= v.len(),
    ensures
        texts(v.insert(at, name)).to_multiset() == texts(v).to_multiset().insert(name@),
{
    broadcast use vstd::seq_lib::group_to_multiset_ensures;

    let longer = texts(v.insert(at, name));
    assert(longer.remove(at) =~= texts(v));
    assert(longer[at] == name@);
    assert(longer.to_multiset() =~= texts(v).to_multiset().insert(name@));
}

/// The names in the order in which they sort, each as often as before.
pub fn sort_names(names: Vec<String>) -> (r: Vec<String>)
    ensures
        sorted(texts(r@)),
        texts(r@).to_multiset() == texts(names@).to_multiset(),
{
    broadcast use vstd::seq_lib::group_to_multiset_ensures;

    let mut rest = names;
    let mut out: Vec<String> = Vec::new();
    let ghost all = texts(names@).to_multiset();
    proof {
        assert(texts(rest@).to_multiset().add(texts(out@).to_multiset()) =~= all);
    }
    while rest.len() > 0
        invariant
            sorted(texts(out@)),
            texts(rest@).to_multiset().add(texts(out@).to_multiset()) == all,
        decreases rest.len(),
    {
        let ghost before = out@;
        let ghost left = rest@;
        match rest.pop() {
            Some(name) => {
                let at: usize = place_of(&out, &name);
                out.insert(at, name);
                proof {
                    assert(left =~= rest@.insert(rest@.len() as int, name));
                    lemma_texts_insert(rest@, rest@.len() as int, name);
                    lemma_texts_insert(before, at as int, name);
                    assert(texts(rest@).to_multiset().add(texts(out@).to_multiset()) =~= all);
                    let now = texts(out@);
                    assert forall|i: int, j: int| 0 <= i < j < now.len() implies !sorts_before(
                        #[trigger] now[j],
                        #[trigger] now[i],
                    ) by {
                        let was = texts(before);
                        if j < at {
                            assert(now[i] == was[i] && now[j] == was[j]);
                        } else if i > at {
                            assert(now[i] == was[i - 1] && now[j] == was[j - 1]);
                        } else if i < at && j > at {
                            assert(now[i] == was[i] && now[j] == was[j - 1]);
                        } else if i == at {
                            assert(now[j] == before[j - 1]@);
                            lemma_order_total(name@, now[j]);
                        } else {
                            assert(now[i] == before[i]@);
                        }
                    }
                }
            },
            None => {},
        }
    }
    proof {
        assert(texts(rest@) =~= Seq::<Seq<char>>::empty());
        assert(texts(out@).to_multiset() =~= all);
    }
    out
}

} // verus!
