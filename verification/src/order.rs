//! Version numbers and their order.
//!
//! Two orders are used by the library:
//! - `version_order`: the numbers found in maximal runs of ASCII digits are
//!   compared field by field, a missing field counting as 0 (so `1.24` and
//!   `1.24.0` are equal, and `21.0.12 > 21.0.9`);
//! - `dotted_order`: the fields between dots that parse as `u32` are compared
//!   lexicographically, a shorter list being smaller when it is a prefix.
//!
//! Both are total preorders; the laws below prove it.  A stable insertion
//! sort specified over any "strictly before" relation fixes the order in
//! which equal elements come out.
use vstd::prelude::*;
use crate::text::{
    all_digits, is_ascii_digit, is_digit, parse_uint, parse_unsigned, seqs_of, slice, split,
    split_at_char,
};

verus! {

/// The result of comparing two values.
#[derive(PartialEq, Eq, Structural, Clone, Copy, Debug)]
pub enum Order {
    Less,
    Equal,
    Greater,
}

/// The order seen from the other side.
pub open spec fn flip(o: Order) -> Order {
    match o {
        Order::Less => Order::Greater,
        Order::Equal => Order::Equal,
        Order::Greater => Order::Less,
    }
}

/// The order of two natural numbers.
pub open spec fn nat_order(a: nat, b: nat) -> Order {
    if a < b {
        Order::Less
    } else if a > b {
        Order::Greater
    } else {
        Order::Equal
    }
}

/// The largest `u64`.
pub open spec fn u64_max() -> nat {
    0xffff_ffff_ffff_ffffnat
}

/// The largest `u32`.
pub open spec fn u32_max() -> nat {
    0xffff_ffffnat
}

// ---------------------------------------------------------------------------
// Numbers in maximal digit runs
// ---------------------------------------------------------------------------

/// The index of the first character of `s` that is not an ASCII digit.
pub open spec fn find_non_digit(s: Seq<char>) -> Option<int>
    decreases s.len(),
{
    if s.len() == 0 {
        None
    } else if !is_digit(s[0]) {
        Some(0)
    } else {
        match find_non_digit(s.drop_first()) {
            Some(i) => Some(i + 1),
            None => None,
        }
    }
}

/// What `find_non_digit` returns.
pub proof fn lemma_find_non_digit(s: Seq<char>)
    ensures
        match find_non_digit(s) {
            Some(i) => 0 <= i < s.len() && !is_digit(s[i]) && forall|j: int|
                0 <= j < i ==> is_digit(#[trigger] s[j]),
            None => forall|j: int| 0 <= j < s.len() ==> is_digit(#[trigger] s[j]),
        },
    decreases s.len(),
{
    if s.len() > 0 && is_digit(s[0]) {
        lemma_find_non_digit(s.drop_first());
        match find_non_digit(s.drop_first()) {
            Some(i) => {
                assert forall|j: int| 0 <= j < i + 1 implies is_digit(#[trigger] s[j]) by {
                    if j > 0 {
                        assert(s[j] == s.drop_first()[j - 1]);
                    }
                }
            },
            None => {
                assert forall|j: int| 0 <= j < s.len() implies is_digit(#[trigger] s[j]) by {
                    if j > 0 {
                        assert(s[j] == s.drop_first()[j - 1]);
                    }
                }
            },
        }
    }
}

proof fn lemma_find_non_digit_at(s: Seq<char>, i: int)
    requires
        0 <= i < s.len(),
        !is_digit(s[i]),
        forall|j: int| 0 <= j < i ==> is_digit(#[trigger] s[j]),
    ensures
        find_non_digit(s) == Some(i),
{
    lemma_find_non_digit(s);
    match find_non_digit(s) {
        Some(k) => {
            if k < i {
                assert(is_digit(s[k]));
            }
            if k > i {
                assert(is_digit(s[i]));
            }
        },
        None => {
            assert(is_digit(s[i]));
        },
    }
}

proof fn lemma_find_non_digit_none(s: Seq<char>)
    requires
        forall|j: int| 0 <= j < s.len() ==> is_digit(#[trigger] s[j]),
    ensures
        find_non_digit(s) is None,
{
    lemma_find_non_digit(s);
    if let Some(k) = find_non_digit(s) {
        assert(is_digit(s[k]));
    }
}

/// The value of a run of digits when it parses as `u64`, as a list of at
/// most one number.
pub open spec fn parsed_u64(p: Seq<char>) -> Seq<nat> {
    match parse_uint(p, u64_max()) {
        Some(v) => seq![v],
        None => seq![],
    }
}

/// The numbers of `s`: its pieces between characters that are not ASCII
/// digits, each kept when it parses as `u64` (empty pieces and overflowing
/// ones are dropped).
pub open spec fn numbers(s: Seq<char>) -> Seq<nat>
    decreases s.len(),
{
    match find_non_digit(s) {
        Some(i) => {
            proof {
                lemma_find_non_digit(s);
            }
            parsed_u64(s.take(i)) + numbers(s.skip(i + 1))
        },
        None => parsed_u64(s),
    }
}

/// Field `i` of a list of numbers, 0 past its end.
pub open spec fn field(ns: Seq<nat>, i: int) -> nat {
    if 0 <= i < ns.len() {
        ns[i]
    } else {
        0
    }
}

/// The larger of two lengths.
pub open spec fn max_len(a: Seq<nat>, b: Seq<nat>) -> int {
    if a.len() >= b.len() {
        a.len() as int
    } else {
        b.len() as int
    }
}

/// Fields compared one by one from index `i` on.
pub open spec fn fields_order(a: Seq<nat>, b: Seq<nat>, i: int) -> Order
    decreases max_len(a, b) - i,
{
    if i >= max_len(a, b) || i < 0 {
        Order::Equal
    } else if field(a, i) != field(b, i) {
        nat_order(field(a, i), field(b, i))
    } else {
        fields_order(a, b, i + 1)
    }
}

/// The order of two version strings by their numbers.
pub open spec fn version_order(a: Seq<char>, b: Seq<char>) -> Order {
    fields_order(numbers(a), numbers(b), 0)
}

/// The numbers of `s`.
pub fn numbers_of(s: &[char]) -> (r: Vec<u64>)
    ensures
        r@.map_values(|x: u64| x as nat) == numbers(s@),
{
    let n = s.len();
    let mut r: Vec<u64> = Vec::new();
    let mut start: usize = 0;
    assert(s@.skip(0) =~= s@);
    loop
        invariant
            n == s@.len(),
            start <= n,
            numbers(s@) == r@.map_values(|x: u64| x as nat) + numbers(s@.skip(start as int)),
        decreases n - start,
    {
        let mut i = start;
        while i < n && is_ascii_digit(s[i])
            invariant
                start <= i <= n,
                n == s@.len(),
                forall|j: int| start <= j < i ==> is_digit(#[trigger] s@[j]),
            decreases n - i,
        {
            i = i + 1;
        }
        let piece = slice(s, start, i);
        let parsed = parse_unsigned(piece.as_slice(), 0xffff_ffff_ffff_ffff);
        let ghost before = r@;
        if let Some(v) = parsed {
            r.push(v);
        }
        proof {
            let t = s@.skip(start as int);
            assert(piece@ =~= t.take(i - start));
            assert forall|j: int| 0 <= j < i - start implies is_digit(#[trigger] t[j]) by {
                assert(t[j] == s@[j + start]);
            }
            assert(r@.map_values(|x: u64| x as nat) =~= before.map_values(|x: u64| x as nat)
                + parsed_u64(piece@));
            if i < n {
                assert(t[i - start] == s@[i as int]);
                lemma_find_non_digit_at(t, i - start);
                assert(t.skip(i - start + 1) =~= s@.skip(i + 1));
            } else {
                lemma_find_non_digit_none(t);
                assert(t.take(i - start) =~= t);
            }
        }
        if i >= n {
            assert(numbers(s@) =~= r@.map_values(|x: u64| x as nat));
            return r;
        }
        start = i + 1;
    }
}

/// The order of the fields of two number lists.
pub fn compare_fields(a: &Vec<u64>, b: &Vec<u64>) -> (o: Order)
    ensures
        o == fields_order(a@.map_values(|x: u64| x as nat), b@.map_values(|x: u64| x as nat), 0),
{
    let ghost na = a@.map_values(|x: u64| x as nat);
    let ghost nb = b@.map_values(|x: u64| x as nat);
    let len = if a.len() >= b.len() {
        a.len()
    } else {
        b.len()
    };
    let mut i: usize = 0;
    while i < len
        invariant
            len == max_len(na, nb),
            na == a@.map_values(|x: u64| x as nat),
            nb == b@.map_values(|x: u64| x as nat),
            i <= len,
            fields_order(na, nb, 0) == fields_order(na, nb, i as int),
        decreases len - i,
    {
        let x: u64 = if i < a.len() {
            a[i]
        } else {
            0
        };
        let y: u64 = if i < b.len() {
            b[i]
        } else {
            0
        };
        assert(x == field(na, i as int));
        assert(y == field(nb, i as int));
        if x != y {
            if x < y {
                return Order::Less;
            } else {
                return Order::Greater;
            }
        }
        i = i + 1;
    }
    Order::Equal
}

/// The order of two version strings by their numbers.
pub fn order_versions(a: &[char], b: &[char]) -> (o: Order)
    ensures
        o == version_order(a@, b@),
{
    let na = numbers_of(a);
    let nb = numbers_of(b);
    compare_fields(&na, &nb)
}

// ---------------------------------------------------------------------------
// Laws of `fields_order`
// ---------------------------------------------------------------------------

/// Every list is equal to itself.
pub proof fn lemma_fields_order_refl(a: Seq<nat>, i: int)
    ensures
        fields_order(a, a, i) == Order::Equal,
    decreases max_len(a, a) - i,
{
    if 0 <= i < max_len(a, a) {
        lemma_fields_order_refl(a, i + 1);
    }
}

/// Comparing the other way round flips the result.
pub proof fn lemma_fields_order_flip(a: Seq<nat>, b: Seq<nat>, i: int)
    ensures
        fields_order(b, a, i) == flip(fields_order(a, b, i)),
    decreases max_len(a, b) - i,
{
    assert(max_len(a, b) == max_len(b, a));
    if 0 <= i < max_len(a, b) && field(a, i) == field(b, i) {
        lemma_fields_order_flip(a, b, i + 1);
    }
}

/// The largest of three lengths.
pub open spec fn max_len3(a: Seq<nat>, b: Seq<nat>, c: Seq<nat>) -> int {
    if max_len(a, b) >= c.len() {
        max_len(a, b)
    } else {
        c.len() as int
    }
}

/// Fields compare the same on a longer range.
proof fn lemma_fields_order_extend(a: Seq<nat>, b: Seq<nat>, i: int, m: int)
    requires
        0 <= i,
        m >= max_len(a, b),
    ensures
        fields_order(a, b, i) == fields_order_upto(a, b, i, m),
    decreases m - i,
{
    if i < m {
        if i < max_len(a, b) {
            if field(a, i) == field(b, i) {
                lemma_fields_order_extend(a, b, i + 1, m);
            }
        } else {
            assert(field(a, i) == 0 && field(b, i) == 0);
            lemma_fields_order_extend(a, b, i + 1, m);
        }
    }
}

/// Fields compared from `i` up to a bound `m`.
pub open spec fn fields_order_upto(a: Seq<nat>, b: Seq<nat>, i: int, m: int) -> Order
    decreases m - i,
{
    if i >= m || i < 0 {
        Order::Equal
    } else if field(a, i) != field(b, i) {
        nat_order(field(a, i), field(b, i))
    } else {
        fields_order_upto(a, b, i + 1, m)
    }
}

proof fn lemma_upto_trans(a: Seq<nat>, b: Seq<nat>, c: Seq<nat>, i: int, m: int)
    requires
        0 <= i,
        fields_order_upto(a, b, i, m) != Order::Greater,
        fields_order_upto(b, c, i, m) != Order::Greater,
    ensures
        fields_order_upto(a, c, i, m) != Order::Greater,
        fields_order_upto(a, b, i, m) == Order::Less || fields_order_upto(b, c, i, m) == Order::Less
            ==> fields_order_upto(a, c, i, m) == Order::Less,
    decreases m - i,
{
    if i < m {
        if field(a, i) == field(b, i) && field(b, i) == field(c, i) {
            lemma_upto_trans(a, b, c, i + 1, m);
        }
    }
}

/// Ordered fields stay ordered through a middle list.
pub proof fn lemma_fields_order_trans(a: Seq<nat>, b: Seq<nat>, c: Seq<nat>)
    requires
        fields_order(a, b, 0) != Order::Greater,
        fields_order(b, c, 0) != Order::Greater,
    ensures
        fields_order(a, c, 0) != Order::Greater,
        fields_order(a, b, 0) == Order::Less || fields_order(b, c, 0) == Order::Less
            ==> fields_order(a, c, 0) == Order::Less,
{
    let m = max_len3(a, b, c);
    lemma_fields_order_extend(a, b, 0, m);
    lemma_fields_order_extend(b, c, 0, m);
    lemma_fields_order_extend(a, c, 0, m);
    lemma_upto_trans(a, b, c, 0, m);
}

// ---------------------------------------------------------------------------
// Dotted fields compared lexicographically
// ---------------------------------------------------------------------------

/// The pieces of `ps` that parse as `u32`, as numbers.
pub open spec fn parsed_u32s(ps: Seq<Seq<char>>) -> Seq<nat>
    decreases ps.len(),
{
    if ps.len() == 0 {
        seq![]
    } else {
        parsed_u32s(ps.drop_last()) + match parse_uint(ps.last(), u32_max()) {
            Some(v) => seq![v],
            None => seq![],
        }
    }
}

/// The numbers of the dot-separated fields of `s` that parse as `u32`.
pub open spec fn dotted_numbers(s: Seq<char>) -> Seq<nat> {
    parsed_u32s(split(s, '.'))
}

/// Lexicographic order of number lists (`Vec::cmp`).
pub open spec fn lex_order(a: Seq<nat>, b: Seq<nat>) -> Order
    decreases a.len(),
{
    if a.len() == 0 && b.len() == 0 {
        Order::Equal
    } else if a.len() == 0 {
        Order::Less
    } else if b.len() == 0 {
        Order::Greater
    } else if a[0] != b[0] {
        nat_order(a[0], b[0])
    } else {
        lex_order(a.drop_first(), b.drop_first())
    }
}

/// The order of two version strings by their dotted fields.
pub open spec fn dotted_order(a: Seq<char>, b: Seq<char>) -> Order {
    lex_order(dotted_numbers(a), dotted_numbers(b))
}

/// The dotted fields of `s` that parse as `u32`.
pub fn dotted_numbers_of(s: &[char]) -> (r: Vec<u32>)
    ensures
        r@.map_values(|x: u32| x as nat) == dotted_numbers(s@),
{
    let pieces = split_at_char(s, '.');
    let mut r: Vec<u32> = Vec::new();
    let mut i: usize = 0;
    while i < pieces.len()
        invariant
            i <= pieces@.len(),
            seqs_of(pieces@) == split(s@, '.'),
            r@.map_values(|x: u32| x as nat) == parsed_u32s(seqs_of(pieces@).take(i as int)),
        decreases pieces@.len() - i,
    {
        let parsed = parse_unsigned(pieces[i].as_slice(), 0xffff_ffff);
        let ghost before = r@;
        if let Some(v) = parsed {
            r.push(v as u32);
        }
        proof {
            let t = seqs_of(pieces@).take(i + 1);
            assert(t.drop_last() =~= seqs_of(pieces@).take(i as int));
            assert(t.last() == pieces@[i as int]@);
            assert(r@.map_values(|x: u32| x as nat) =~= before.map_values(|x: u32| x as nat) + match parse_uint(t.last(), u32_max()) {
                Some(v) => seq![v],
                None => seq![],
            });
        }
        i = i + 1;
    }
    assert(seqs_of(pieces@).take(pieces@.len() as int) =~= seqs_of(pieces@));
    r
}

/// Lexicographic order of two number lists.
pub fn compare_lex(a: &Vec<u32>, b: &Vec<u32>) -> (o: Order)
    ensures
        o == lex_order(a@.map_values(|x: u32| x as nat), b@.map_values(|x: u32| x as nat)),
{
    let ghost na = a@.map_values(|x: u32| x as nat);
    let ghost nb = b@.map_values(|x: u32| x as nat);
    assert(na.skip(0) =~= na);
    assert(nb.skip(0) =~= nb);
    let mut i: usize = 0;
    while i < a.len() && i < b.len()
        invariant
            na == a@.map_values(|x: u32| x as nat),
            nb == b@.map_values(|x: u32| x as nat),
            i <= a@.len(),
            i <= b@.len(),
            lex_order(na, nb) == lex_order(na.skip(i as int), nb.skip(i as int)),
        decreases a@.len() - i,
    {
        let ghost sa = na.skip(i as int);
        let ghost sb = nb.skip(i as int);
        assert(sa[0] == a@[i as int] as nat);
        assert(sb[0] == b@[i as int] as nat);
        if a[i] != b[i] {
            if a[i] < b[i] {
                return Order::Less;
            } else {
                return Order::Greater;
            }
        }
        assert(sa.drop_first() =~= na.skip(i + 1));
        assert(sb.drop_first() =~= nb.skip(i + 1));
        i = i + 1;
    }
    let ghost sa = na.skip(i as int);
    let ghost sb = nb.skip(i as int);
    if i < a.len() {
        assert(sa.len() > 0 && sb.len() == 0);
        Order::Greater
    } else if i < b.len() {
        assert(sa.len() == 0 && sb.len() > 0);
        Order::Less
    } else {
        assert(sa.len() == 0 && sb.len() == 0);
        Order::Equal
    }
}

/// The order of two version strings by their dotted fields.
pub fn order_dotted(a: &[char], b: &[char]) -> (o: Order)
    ensures
        o == dotted_order(a@, b@),
{
    let na = dotted_numbers_of(a);
    let nb = dotted_numbers_of(b);
    compare_lex(&na, &nb)
}

/// Every list is equal to itself.
pub proof fn lemma_lex_order_refl(a: Seq<nat>)
    ensures
        lex_order(a, a) == Order::Equal,
    decreases a.len(),
{
    if a.len() > 0 {
        lemma_lex_order_refl(a.drop_first());
    }
}

/// Equal lists only are lexicographically equal.
pub proof fn lemma_lex_order_equal(a: Seq<nat>, b: Seq<nat>)
    ensures
        lex_order(a, b) == Order::Equal <==> a == b,
    decreases a.len(),
{
    if a.len() > 0 && b.len() > 0 && a[0] == b[0] {
        lemma_lex_order_equal(a.drop_first(), b.drop_first());
        if a.drop_first() == b.drop_first() {
            assert(a =~= seq![a[0]] + a.drop_first());
            assert(b =~= seq![b[0]] + b.drop_first());
        }
        if a == b {
            assert(a.drop_first() == b.drop_first());
        }
    } else if a.len() == 0 && b.len() == 0 {
        assert(a =~= b);
    } else if a.len() > 0 && b.len() > 0 {
        assert(a[0] != b[0]);
    } else {
        assert(a.len() != b.len());
    }
}

/// Comparing the other way round flips the result.
pub proof fn lemma_lex_order_flip(a: Seq<nat>, b: Seq<nat>)
    ensures
        lex_order(b, a) == flip(lex_order(a, b)),
    decreases a.len(),
{
    if a.len() > 0 && b.len() > 0 && a[0] == b[0] {
        lemma_lex_order_flip(a.drop_first(), b.drop_first());
    }
}

/// Lexicographic order is transitive.
pub proof fn lemma_lex_order_trans(a: Seq<nat>, b: Seq<nat>, c: Seq<nat>)
    requires
        lex_order(a, b) != Order::Greater,
        lex_order(b, c) != Order::Greater,
    ensures
        lex_order(a, c) != Order::Greater,
        lex_order(a, b) == Order::Less || lex_order(b, c) == Order::Less ==> lex_order(a, c)
            == Order::Less,
    decreases a.len(),
{
    if a.len() > 0 && b.len() > 0 && c.len() > 0 && a[0] == b[0] && b[0] == c[0] {
        lemma_lex_order_trans(a.drop_first(), b.drop_first(), c.drop_first());
    }
}

// ---------------------------------------------------------------------------
// Stable insertion sort
// ---------------------------------------------------------------------------

/// `e` inserted into `s` after every element that it does not strictly
/// precede.
pub open spec fn insert_sorted<T>(s: Seq<T>, e: T, before: spec_fn(T, T) -> bool) -> Seq<T>
    decreases s.len(),
{
    if s.len() == 0 {
        seq![e]
    } else if before(e, s.last()) {
        insert_sorted(s.drop_last(), e, before).push(s.last())
    } else {
        s.push(e)
    }
}

/// `s` sorted by a stable sort for which `before(a, b)` means that `a` is
/// strictly smaller than `b` (what `slice::sort_by` gives when the
/// comparator returns `Less` exactly when `before` holds).
pub open spec fn stable_sort<T>(s: Seq<T>, before: spec_fn(T, T) -> bool) -> Seq<T>
    decreases s.len(),
{
    if s.len() == 0 {
        s
    } else {
        insert_sorted(stable_sort(s.drop_last(), before), s.last(), before)
    }
}

/// Inserting at the position found by scanning from the end.
pub proof fn lemma_insert_at<T>(s: Seq<T>, e: T, before: spec_fn(T, T) -> bool, p: int)
    requires
        0 <= p <= s.len(),
        forall|j: int| p <= j < s.len() ==> before(e, #[trigger] s[j]),
        p > 0 ==> !before(e, s[p - 1]),
    ensures
        insert_sorted(s, e, before) == s.take(p).push(e) + s.skip(p),
    decreases s.len(),
{
    if s.len() == 0 {
        assert(s.take(p).push(e) + s.skip(p) =~= seq![e]);
    } else if p == s.len() {
        assert(!before(e, s.last()));
        assert(s.take(p).push(e) + s.skip(p) =~= s.push(e));
    } else {
        assert(before(e, s[s.len() - 1]));
        let d = s.drop_last();
        assert forall|j: int| p <= j < d.len() implies before(e, #[trigger] d[j]) by {
            assert(d[j] == s[j]);
        }
        if p > 0 {
            assert(d[p - 1] == s[p - 1]);
        }
        lemma_insert_at(d, e, before, p);
        assert(d.take(p) =~= s.take(p));
        assert(d.skip(p).push(s.last()) =~= s.skip(p));
        assert(insert_sorted(s, e, before) =~= s.take(p).push(e) + s.skip(p));
    }
}

// ---------------------------------------------------------------------------
// Laws of the version orders
// ---------------------------------------------------------------------------

/// Version order is a total preorder: every version equals itself,
/// comparing the other way round flips the result, and it is transitive
/// (strictly when one step is strict).
pub proof fn law_version_order(a: Seq<char>, b: Seq<char>, c: Seq<char>)
    ensures
        version_order(a, a) == Order::Equal,
        version_order(b, a) == flip(version_order(a, b)),
        version_order(a, b) != Order::Greater && version_order(b, c) != Order::Greater
            ==> version_order(a, c) != Order::Greater,
        version_order(a, b) != Order::Greater && version_order(b, c) != Order::Greater && (
        version_order(a, b) == Order::Less || version_order(b, c) == Order::Less) ==> version_order(
            a,
            c,
        ) == Order::Less,
{
    lemma_fields_order_refl(numbers(a), 0);
    lemma_fields_order_flip(numbers(a), numbers(b), 0);
    if version_order(a, b) != Order::Greater && version_order(b, c) != Order::Greater {
        lemma_fields_order_trans(numbers(a), numbers(b), numbers(c));
    }
}

/// Dotted order is a total order on the parsed fields: equal exactly when
/// the fields are equal, flipped the other way round, and transitive.
pub proof fn law_dotted_order(a: Seq<char>, b: Seq<char>, c: Seq<char>)
    ensures
        dotted_order(a, a) == Order::Equal,
        dotted_order(a, b) == Order::Equal <==> dotted_numbers(a) == dotted_numbers(b),
        dotted_order(b, a) == flip(dotted_order(a, b)),
        dotted_order(a, b) != Order::Greater && dotted_order(b, c) != Order::Greater
            ==> dotted_order(a, c) != Order::Greater,
        dotted_order(a, b) != Order::Greater && dotted_order(b, c) != Order::Greater && (
        dotted_order(a, b) == Order::Less || dotted_order(b, c) == Order::Less) ==> dotted_order(
            a,
            c,
        ) == Order::Less,
{
    lemma_lex_order_refl(dotted_numbers(a));
    lemma_lex_order_equal(dotted_numbers(a), dotted_numbers(b));
    lemma_lex_order_flip(dotted_numbers(a), dotted_numbers(b));
    if dotted_order(a, b) != Order::Greater && dotted_order(b, c) != Order::Greater {
        lemma_lex_order_trans(dotted_numbers(a), dotted_numbers(b), dotted_numbers(c));
    }
}

// ---------------------------------------------------------------------------
// Laws of the stable sort
// ---------------------------------------------------------------------------

/// `s` is sorted for `before`: no element strictly precedes an earlier one.
pub open spec fn sorted_for<T>(s: Seq<T>, before: spec_fn(T, T) -> bool) -> bool {
    forall|i: int, j: int| 0 <= i < j < s.len() ==> !before(#[trigger] s[j], #[trigger] s[i])
}

/// `before` is a strict weak order: asymmetric, and "not before" is
/// transitive.
pub open spec fn strict_weak<T>(before: spec_fn(T, T) -> bool) -> bool {
    &&& forall|a: T, b: T| #[trigger] before(a, b) ==> !before(b, a)
    &&& forall|a: T, b: T, c: T|
        !#[trigger] before(b, a) && !#[trigger] before(c, b) ==> !before(c, a)
}

/// Inserting keeps the elements, adding one.
pub proof fn lemma_insert_sorted_multiset<T>(s: Seq<T>, e: T, before: spec_fn(T, T) -> bool)
    ensures
        insert_sorted(s, e, before).to_multiset() == s.to_multiset().insert(e),
    decreases s.len(),
{
    broadcast use vstd::seq_lib::group_to_multiset_ensures;

    if s.len() == 0 {
        assert(seq![e] =~= Seq::<T>::empty().push(e));
    } else if before(e, s.last()) {
        lemma_insert_sorted_multiset(s.drop_last(), e, before);
        assert(s.drop_last().push(s.last()) =~= s);
        assert(s.to_multiset() == s.drop_last().to_multiset().insert(s.last()));
        assert(insert_sorted(s, e, before).to_multiset() =~= s.to_multiset().insert(e));
    }
}

/// Sorting keeps the elements.
pub proof fn lemma_stable_sort_multiset<T>(s: Seq<T>, before: spec_fn(T, T) -> bool)
    ensures
        stable_sort(s, before).to_multiset() == s.to_multiset(),
    decreases s.len(),
{
    broadcast use vstd::seq_lib::group_to_multiset_ensures;

    if s.len() > 0 {
        lemma_stable_sort_multiset(s.drop_last(), before);
        lemma_insert_sorted_multiset(stable_sort(s.drop_last(), before), s.last(), before);
        assert(s.drop_last().push(s.last()) =~= s);
    }
}

/// Inserting into a sorted list keeps it sorted.
pub proof fn lemma_insert_sorted_sorted<T>(s: Seq<T>, e: T, before: spec_fn(T, T) -> bool)
    requires
        strict_weak(before),
        sorted_for(s, before),
    ensures
        sorted_for(insert_sorted(s, e, before), before),
    decreases s.len(),
{
    let r = insert_sorted(s, e, before);
    if s.len() == 0 {
    } else if before(e, s.last()) {
        let d = s.drop_last();
        assert forall|i: int, j: int| 0 <= i < j < d.len() implies !before(#[trigger] d[j], #[trigger] d[i]) by {
            assert(d[i] == s[i] && d[j] == s[j]);
        }
        lemma_insert_sorted_sorted(d, e, before);
        lemma_insert_sorted_multiset(d, e, before);
        let q = insert_sorted(d, e, before);
        assert forall|i: int, j: int| 0 <= i < j < r.len() implies !before(#[trigger] r[j], #[trigger] r[i]) by {
            if j == r.len() - 1 {
                assert(r[j] == s.last());
                // r[i] is e or an element of d; neither is preceded by the last one.
                assert(q.to_multiset().count(q[i]) > 0) by {
                    broadcast use vstd::seq_lib::group_to_multiset_ensures;
                    assert(q.contains(q[i]));
                }
                assert(r[i] == q[i]);
                if q[i] == e {
                    assert(!before(s.last(), e));
                } else {
                    assert(d.to_multiset().insert(e).count(q[i]) > 0);
                    assert(d.to_multiset().count(q[i]) > 0);
                    broadcast use vstd::seq_lib::group_to_multiset_ensures;
                    assert(d.contains(q[i]));
                    let k = choose|k: int| 0 <= k < d.len() && d[k] == q[i];
                    assert(s[k] == d[k]);
                    assert(!before(s[s.len() - 1], s[k]));
                }
            } else {
                assert(r[i] == q[i] && r[j] == q[j]);
            }
        }
    } else {
        assert forall|i: int, j: int| 0 <= i < j < r.len() implies !before(#[trigger] r[j], #[trigger] r[i]) by {
            if j == r.len() - 1 {
                assert(r[j] == e);
                if i < s.len() - 1 {
                    assert(!before(s[s.len() - 1], s[i]));
                    assert(!before(e, s[s.len() - 1]));
                }
            } else {
                assert(r[i] == s[i] && r[j] == s[j]);
            }
        }
    }
}

/// The stable sort of a list is sorted, for a strict weak order.
pub proof fn lemma_stable_sort_sorted<T>(s: Seq<T>, before: spec_fn(T, T) -> bool)
    requires
        strict_weak(before),
    ensures
        sorted_for(stable_sort(s, before), before),
    decreases s.len(),
{
    if s.len() > 0 {
        lemma_stable_sort_sorted(s.drop_last(), before);
        lemma_insert_sorted_sorted(stable_sort(s.drop_last(), before), s.last(), before);
    }
}

/// `r` holds between the elements at any two different positions of `s`.
pub open spec fn pairwise<T>(s: Seq<T>, r: spec_fn(T, T) -> bool) -> bool {
    forall|i: int, j: int| 0 <= i < s.len() && 0 <= j < s.len() && i != j ==> r(#[trigger] s[i], #[trigger] s[j])
}

/// Inserting puts `e` at one position and keeps the rest in order.
pub proof fn lemma_insert_position<T>(s: Seq<T>, e: T, before: spec_fn(T, T) -> bool) -> (p: int)
    ensures
        0 <= p <= s.len(),
        insert_sorted(s, e, before) == s.take(p).push(e) + s.skip(p),
    decreases s.len(),
{
    if s.len() == 0 {
        assert(s.take(0).push(e) + s.skip(0) =~= seq![e]);
        0
    } else if before(e, s.last()) {
        let d = s.drop_last();
        let q = lemma_insert_position(d, e, before);
        assert(d.take(q) =~= s.take(q));
        assert(d.skip(q).push(s.last()) =~= s.skip(q));
        assert(insert_sorted(s, e, before) =~= s.take(q).push(e) + s.skip(q));
        q
    } else {
        assert(s.take(s.len() as int).push(e) + s.skip(s.len() as int) =~= s.push(e));
        s.len() as int
    }
}

/// Sorting keeps the length and exactly the elements.
pub proof fn lemma_stable_sort_contains<T>(s: Seq<T>, before: spec_fn(T, T) -> bool)
    ensures
        stable_sort(s, before).len() == s.len(),
        forall|x: T| #[trigger] stable_sort(s, before).contains(x) <==> s.contains(x),
{
    broadcast use vstd::seq_lib::group_to_multiset_ensures;

    lemma_stable_sort_multiset(s, before);
    assert(stable_sort(s, before).to_multiset().len() == stable_sort(s, before).len());
    assert(s.to_multiset().len() == s.len());
    assert forall|x: T| #[trigger] stable_sort(s, before).contains(x) <==> s.contains(x) by {
        assert(stable_sort(s, before).contains(x) <==> stable_sort(s, before).to_multiset().count(x) > 0);
        assert(s.contains(x) <==> s.to_multiset().count(x) > 0);
    }
}

/// Inserting an element related both ways to every element keeps a
/// pairwise relation.
proof fn lemma_insert_sorted_pairwise<T>(s: Seq<T>, e: T, before: spec_fn(T, T) -> bool, r: spec_fn(T, T) -> bool)
    requires
        pairwise(s, r),
        forall|k: int| 0 <= k < s.len() ==> r(e, #[trigger] s[k]) && r(s[k], e),
    ensures
        pairwise(insert_sorted(s, e, before), r),
{
    let p = lemma_insert_position(s, e, before);
    let t = insert_sorted(s, e, before);
    assert(t.len() == s.len() + 1);
    assert forall|q: int| 0 <= q < t.len() implies #[trigger] t[q] == (if q < p {
        s[q]
    } else if q == p {
        e
    } else {
        s[q - 1]
    }) by {}
    assert forall|i: int, j: int| 0 <= i < t.len() && 0 <= j < t.len() && i != j implies r(#[trigger] t[i], #[trigger] t[j]) by {
        let a = if i < p {
            i
        } else {
            i - 1
        };
        let b = if j < p {
            j
        } else {
            j - 1
        };
        if i != p && j != p {
            assert(t[i] == s[a] && t[j] == s[b]);
        } else if i == p {
            assert(t[j] == s[b]);
        } else {
            assert(t[i] == s[a]);
        }
    }
}

/// Sorting keeps a pairwise relation.
pub proof fn lemma_stable_sort_pairwise<T>(s: Seq<T>, before: spec_fn(T, T) -> bool, r: spec_fn(T, T) -> bool)
    requires
        pairwise(s, r),
    ensures
        pairwise(stable_sort(s, before), r),
    decreases s.len(),
{
    if s.len() > 0 {
        let d = s.drop_last();
        assert forall|i: int, j: int| 0 <= i < d.len() && 0 <= j < d.len() && i != j implies r(#[trigger] d[i], #[trigger] d[j]) by {
            assert(d[i] == s[i] && d[j] == s[j]);
        }
        lemma_stable_sort_pairwise(d, before, r);
        let t = stable_sort(d, before);
        lemma_stable_sort_contains(d, before);
        let e = s.last();
        assert forall|k: int| 0 <= k < t.len() implies r(e, #[trigger] t[k]) && r(t[k], e) by {
            assert(t.contains(t[k]));
            assert(d.contains(t[k]));
            let m = choose|m: int| 0 <= m < d.len() && d[m] == t[k];
            assert(s[m] == t[k]);
            assert(s[s.len() - 1] == e);
        }
        lemma_insert_sorted_pairwise(t, e, before, r);
    }
}

} // verus!
