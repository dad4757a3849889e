//! Text helpers: views of string lists, ordering, prefixes and decimal notation.

use vstd::prelude::*;

verus! {

/// The texts held by a list of strings.
pub open spec fn texts(list: Seq<String>) -> Seq<Seq<char>> {
    list.map_values(|s: String| s@)
}

/// The order of strings by code points, the first difference deciding.
pub open spec fn name_less(a: Seq<char>, b: Seq<char>) -> bool
    decreases a.len(),
{
    if b.len() == 0 {
        false
    } else if a.len() == 0 {
        true
    } else if a[0] == b[0] {
        name_less(a.drop_first(), b.drop_first())
    } else {
        a[0] < b[0]
    }
}

/// No text comes before itself.
pub proof fn lemma_less_irreflexive(a: Seq<char>)
    ensures
        !name_less(a, a),
    decreases a.len(),
{
    if a.len() > 0 {
        lemma_less_irreflexive(a.drop_first());
    }
}

/// The order of texts is transitive.
pub proof fn lemma_less_transitive(a: Seq<char>, b: Seq<char>, c: Seq<char>)
    requires
        name_less(a, b),
        name_less(b, c),
    ensures
        name_less(a, c),
    decreases a.len(),
{
    if a.len() > 0 && a[0] == b[0] && b[0] == c[0] {
        lemma_less_transitive(a.drop_first(), b.drop_first(), c.drop_first());
    }
}

/// Of two different texts one comes before the other.
pub proof fn lemma_less_total(a: Seq<char>, b: Seq<char>)
    ensures
        a == b || name_less(a, b) || name_less(b, a),
    decreases a.len(),
{
    if a.len() == 0 && b.len() == 0 {
        assert(a =~= b);
    } else if a.len() > 0 && b.len() > 0 && a[0] == b[0] {
        lemma_less_total(a.drop_first(), b.drop_first());
        if a.drop_first() == b.drop_first() {
            assert(a =~= seq![a[0]] + a.drop_first());
            assert(b =~= seq![b[0]] + b.drop_first());
        }
    }
}

/// The digit `d` as a character.
pub open spec fn digit_char(d: nat) -> char {
    (48 + d) as char
}

/// The decimal notation of `n`, without leading zeros.
pub open spec fn decimal(n: nat) -> Seq<char>
    decreases n,
{
    if n < 10 {
        seq![digit_char(n)]
    } else {
        decimal(n / 10).push(digit_char(n % 10))
    }
}

/// `str`'s own `==`: whether two strings hold the same characters.
#[verifier::external_body]
pub(crate) fn text_eq(a: &str, b: &str) -> (r: bool)
    ensures
        r == (a@ == b@),
{
    a == b
}

/// `str`'s own `<`. The documentation of `str` orders strings
/// lexicographically by their bytes, and says that this is the order of their code points.
#[verifier::external_body]
pub(crate) fn text_less(a: &str, b: &str) -> (r: bool)
    ensures
        r == name_less(a@, b@),
{
    a < b
}

/// `str::starts_with` with a string pattern: whether the characters of
/// `prefix` are the first characters of `s`.
#[verifier::external_body]
pub(crate) fn text_starts_with(s: &str, prefix: &str) -> (r: bool)
    ensures
        r == prefix@.is_prefix_of(s@),
{
    s.starts_with(prefix)
}

/// One decimal digit as text.
fn digit_text(d: u64) -> (r: &'static str)
    requires
        d < 10,
    ensures
        r@ == seq![digit_char(d as nat)],
{
    proof {
        reveal_strlit("0");
        reveal_strlit("1");
        reveal_strlit("2");
        reveal_strlit("3");
        reveal_strlit("4");
        reveal_strlit("5");
        reveal_strlit("6");
        reveal_strlit("7");
        reveal_strlit("8");
        reveal_strlit("9");
    }
    if d == 0 {
        "0"
    } else if d == 1 {
        "1"
    } else if d == 2 {
        "2"
    } else if d == 3 {
        "3"
    } else if d == 4 {
        "4"
    } else if d == 5 {
        "5"
    } else if d == 6 {
        "6"
    } else if d == 7 {
        "7"
    } else if d == 8 {
        "8"
    } else {
        "9"
    }
}

/// The decimal notation of a number.
pub fn decimal_text(n: u64) -> (r: String)
    ensures
        r@ == decimal(n as nat),
    decreases n,
{
    if n < 10 {
        digit_text(n).to_string()
    } else {
        let mut out: String = decimal_text(n / 10);
        out.append(digit_text(n % 10));
        assert(out@ =~= decimal((n / 10) as nat).push(digit_char((n % 10) as nat)));
        out
    }
}

/// A list of strings, cloned.
pub fn clone_texts(list: &Vec<String>) -> (r: Vec<String>)
    ensures
        texts(r@) == texts(list@),
{
    let mut out: Vec<String> = Vec::new();
    let mut i: usize = 0;
    while i < list.len()
        invariant
            i <= list.len(),
            texts(out@) =~= texts(list@).take(i as int),
        decreases list.len() - i,
    {
        out.push(list[i].clone());
        i = i + 1;
        assert(texts(list@).take(i as int) =~= texts(list@).take(i - 1).push(list@[i - 1]@));
    }
    assert(texts(list@).take(list@.len() as int) =~= texts(list@));
    out
}

/// Whether a list of strings holds a text.
pub fn list_contains(list: &Vec<String>, item: &str) -> (r: bool)
    ensures
        r == texts(list@).contains(item@),
{
    let mut i: usize = 0;
    while i < list.len()
        invariant
            i <= list.len(),
            forall|j: int| 0 <= j < i ==> texts(list@)[j] != item@,
        decreases list.len() - i,
    {
        if text_eq(list[i].as_str(), item) {
            assert(texts(list@)[i as int] == item@);
            return true;
        }
        i = i + 1;
    }
    false
}

/// What one more element adds to a list.
pub proof fn lemma_push_contains<A>(list: Seq<A>, item: A, key: A)
    ensures
        list.push(item).contains(key) <==> list.contains(key) || key == item,
{
    if list.contains(key) {
        let i = choose|i: int| 0 <= i < list.len() && list[i] == key;
        assert(list.push(item)[i] == key);
    }
    assert(list.push(item)[list.len() as int] == item);
    if list.push(item).contains(key) && key != item {
        let i = choose|i: int| 0 <= i < list.push(item).len() && list.push(item)[i] == key;
        assert(list[i] == key);
    }
}

/// A list of strings without those that are equal to `item`.
pub fn drop_text(list: Vec<String>, item: &str) -> (r: Vec<String>)
    ensures
        forall|x: Seq<char>| #[trigger]
            texts(r@).contains(x) <==> texts(list@).contains(x) && x != item@,
        texts(list@).no_duplicates() ==> texts(r@).no_duplicates(),
{
    let ghost all = texts(list@);
    let mut out: Vec<String> = Vec::new();
    for entry in it: list
        invariant
            it.seq() == list@,
            all == texts(list@),
            0 <= it.index() <= list@.len(),
            forall|x: Seq<char>| #[trigger]
                texts(out@).contains(x) <==> all.take(it.index()).contains(x) && x != item@,
            all.no_duplicates() ==> texts(out@).no_duplicates(),
    {
        let ghost k = it.index();
        let ghost before = texts(out@);
        let ghost part = all.take(k);
        let ghost e = entry@;
        assert(all.take(k + 1) =~= part.push(e));
        if !text_eq(entry.as_str(), item) {
            out.push(entry);
            proof {
                assert(texts(out@) =~= before.push(e));
                if all.no_duplicates() && before.contains(e) {
                    assert(part.contains(e));
                    let j = choose|j: int| 0 <= j < part.len() && part[j] == e;
                    assert(all[j] == all[k]);
                }
            }
        }
        assert forall|x: Seq<char>| #[trigger]
            texts(out@).contains(x) <==> all.take(k + 1).contains(x) && x != item@ by {
            lemma_push_contains(part, e, x);
            lemma_push_contains(before, e, x);
            assert(before.contains(x) <==> part.contains(x) && x != item@);
        }
    }
    assert(all.take(list@.len() as int) =~= all);
    out
}

/// The decimal notation of a number is one digit for a number below ten, and that
/// of its tenth part with its last digit behind it for a greater one.
pub proof fn law_decimal_notation_is_positional(n: nat, d: nat)
    requires
        d < 10,
    ensures
        decimal(d).len() == 1 && decimal(d)[0] as u32 == '0' as u32 + d,
        n > 0 ==> decimal(n * 10 + d) == decimal(n) + decimal(d),
{
    if n > 0 {
        assert((n * 10 + d) / 10 == n && (n * 10 + d) % 10 == d);
        assert(decimal(n).push(digit_char(d)) =~= decimal(n) + decimal(d));
    }
}

/// Of two texts the one that is smaller at the first place where they differ
/// comes first, and one that the other starts with comes before it.
pub proof fn law_first_difference_decides(head: Seq<char>, a: Seq<char>, b: Seq<char>)
    ensures
        a.len() > 0 && b.len() > 0 && a[0] != b[0] ==> name_less(head + a, head + b) == (a[0]
            < b[0]),
        b.len() > 0 ==> name_less(head, head + b),
        !name_less(head + a, head),
    decreases head.len(),
{
    if head.len() > 0 {
        law_first_difference_decides(head.drop_first(), a, b);
        assert((head + a).drop_first() =~= head.drop_first() + a);
        assert((head + b).drop_first() =~= head.drop_first() + b);
    } else {
        assert(head + a =~= a);
        assert(head + b =~= b);
    }
}

} // verus!
