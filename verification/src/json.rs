//! JSON values: parsing, printing, looking into objects, sorting members by name.

use crate::text;
use serde_json::{Number, Value};
use vstd::prelude::*;

verus! {

/// `serde_json::Value`. What it holds is named by `value_tree`.
#[verifier::external_type_specification]
#[verifier::external_body]
pub struct ExValue(Value);

/// `serde_json::Number`, carried as it is.
#[verifier::external_type_specification]
#[verifier::external_body]
pub struct ExNumber(Number);

/// A JSON number that is no integer of 64 bits. Such numbers are carried along
/// and never looked into.
#[derive(Debug, PartialEq)]
pub struct OtherNumber {
    number: Number,
}

/// A JSON value. Members of an object may stand in any order; of members with
/// one name the last one counts.
#[derive(Debug, PartialEq)]
pub enum Json {
    Null,
    Bool(bool),
    Int(i64),
    /// An integer past `i64::MAX`.
    Big(u64),
    Other(OtherNumber),
    Text(String),
    Array(Vec<Json>),
    Object(Vec<(String, Json)>),
}

/// What a JSON value says.
pub enum JsonTree {
    Null,
    Bool(bool),
    Int(int),
    Other(OtherNumber),
    Text(Seq<char>),
    Array(Seq<JsonTree>),
    Object(Seq<(Seq<char>, JsonTree)>),
}

/// The members of an object, in the order in which they stand.
pub type Members = Seq<(Seq<char>, JsonTree)>;

/// The position of the last member called `name`, -1 if there is none.
pub open spec fn last_index(ms: Members, name: Seq<char>) -> int
    decreases ms.len(),
{
    if ms.len() == 0 {
        -1
    } else if ms.last().0 == name {
        ms.len() - 1
    } else {
        last_index(ms.drop_last(), name)
    }
}

/// Whether there is a member called `name`.
pub open spec fn has_member(ms: Members, name: Seq<char>) -> bool {
    last_index(ms, name) >= 0
}

/// The value of the member called `name`.
pub open spec fn find_member(ms: Members, name: Seq<char>) -> Option<JsonTree> {
    if has_member(ms, name) {
        Some(ms[last_index(ms, name)].1)
    } else {
        None
    }
}

/// The members that are not called `name`.
pub open spec fn without_member(ms: Members, name: Seq<char>) -> Members
    decreases ms.len(),
{
    if ms.len() == 0 {
        ms
    } else if ms.last().0 == name {
        without_member(ms.drop_last(), name)
    } else {
        without_member(ms.drop_last(), name).push(ms.last())
    }
}

/// The members, with a new value for the one called `name`.
pub open spec fn with_value(ms: Members, name: Seq<char>, value: JsonTree) -> Members {
    ms.update(last_index(ms, name), (name, value))
}

/// Whether the names of the members rise strictly.
pub open spec fn in_order(ms: Members) -> bool {
    forall|i: int, j: int| 0 <= i < j < ms.len() ==> text::name_less(ms[i].0, ms[j].0)
}

/// A member put in its place among members in order; one of the same name is replaced.
pub open spec fn insert_member(ms: Members, name: Seq<char>, value: JsonTree) -> Members
    decreases ms.len(),
{
    if ms.len() == 0 {
        seq![(name, value)]
    } else if ms.last().0 == name {
        ms.drop_last().push((name, value))
    } else if text::name_less(ms.last().0, name) {
        ms.push((name, value))
    } else {
        insert_member(ms.drop_last(), name, value).push(ms.last())
    }
}

/// The members in the order of their names, with sorted values; of members with
/// one name the last one stays.
pub open spec fn sorted_members(ms: Members) -> Members
    decreases ms,
{
    if ms.len() == 0 {
        ms
    } else {
        insert_member(sorted_members(ms.drop_last()), ms.last().0, ms.last().1.sorted())
    }
}

/// The items, sorted.
pub open spec fn sorted_items(items: Seq<JsonTree>) -> Seq<JsonTree>
    decreases items,
{
    Seq::new(
        items.len(),
        |i: int|
            if 0 <= i < items.len() {
                items[i].sorted()
            } else {
                JsonTree::Null
            },
    )
}

impl JsonTree {
    /// The value of the member called `name`, if this is an object that has one.
    pub open spec fn member(self, name: Seq<char>) -> Option<JsonTree> {
        match self {
            JsonTree::Object(ms) => find_member(ms, name),
            _ => None,
        }
    }

    /// The text, if this is one.
    pub open spec fn text(self) -> Option<Seq<char>> {
        match self {
            JsonTree::Text(s) => Some(s),
            _ => None,
        }
    }

    /// The items, if this is an array.
    pub open spec fn items(self) -> Option<Seq<JsonTree>> {
        match self {
            JsonTree::Array(items) => Some(items),
            _ => None,
        }
    }

    /// The number, if this is one that fits in an `i64`.
    pub open spec fn whole(self) -> Option<i64> {
        match self {
            JsonTree::Int(i) => if i64::MIN <= i <= i64::MAX {
                Some(i as i64)
            } else {
                None
            },
            _ => None,
        }
    }

    /// The same value with the members of every object, at any depth, in the
    /// order of their names.
    pub open spec fn sorted(self) -> JsonTree
        decreases self,
    {
        match self {
            JsonTree::Array(items) => JsonTree::Array(sorted_items(items)),
            JsonTree::Object(ms) => JsonTree::Object(sorted_members(ms)),
            _ => self,
        }
    }

    /// Whether the members of every object, at any depth, stand in the order of their names.
    pub open spec fn is_sorted(self) -> bool
        decreases self,
    {
        match self {
            JsonTree::Array(items) => forall|i: int|
                0 <= i < items.len() ==> (#[trigger] items[i]).is_sorted(),
            JsonTree::Object(ms) => in_order(ms) && forall|i: int|
                0 <= i < ms.len() ==> (#[trigger] ms[i]).1.is_sorted(),
            _ => true,
        }
    }
}

/// How deep arrays and objects may be nested in a text that is parsed.
pub open spec fn nesting_limit() -> nat {
    127
}

/// The name by which `serde_json` marks a text that is JSON of its own. An object
/// that starts with it is parsed as what that text says.
pub open spec fn raw_name() -> Seq<char> {
    "$serde_json::private::RawValue"@
}

/// Whether a value holds no numbers but integers of 64 bits, has no member called
/// `raw_name`, and nests arrays and objects at most `room` deep.
pub open spec fn plain(t: JsonTree, room: nat) -> bool
    decreases t,
{
    match t {
        JsonTree::Int(i) => i64::MIN <= i <= u64::MAX,
        JsonTree::Other(_) => false,
        JsonTree::Array(items) => room > 0 && forall|i: int|
            0 <= i < items.len() ==> plain(#[trigger] items[i], (room - 1) as nat),
        JsonTree::Object(ms) => room > 0 && forall|i: int|
            0 <= i < ms.len() ==> (#[trigger] ms[i]).0 != raw_name() && plain(
                ms[i].1,
                (room - 1) as nat,
            ),
        _ => true,
    }
}

/// Whether no object starts with a member called `raw_name`, at any depth.
pub open spec fn tame(t: JsonTree) -> bool
    decreases t,
{
    match t {
        JsonTree::Array(items) => forall|i: int| 0 <= i < items.len() ==> tame(#[trigger] items[i]),
        JsonTree::Object(ms) => {
            &&& ms.len() > 0 ==> ms[0].0 != raw_name()
            &&& forall|i: int| 0 <= i < ms.len() ==> tame((#[trigger] ms[i]).1)
        },
        _ => true,
    }
}

/// Whether two values say the same but for numbers that are no integers of 64
/// bits: where one has such a number, the other has one too, maybe another.
pub open spec fn same_shape(a: JsonTree, b: JsonTree) -> bool
    decreases a,
{
    match (a, b) {
        (JsonTree::Other(_), JsonTree::Other(_)) => true,
        (JsonTree::Array(x), JsonTree::Array(y)) => {
            &&& x.len() == y.len()
            &&& forall|i: int| 0 <= i < x.len() ==> same_shape(#[trigger] x[i], y[i])
        },
        (JsonTree::Object(x), JsonTree::Object(y)) => {
            &&& x.len() == y.len()
            &&& forall|i: int|
                0 <= i < x.len() ==> (#[trigger] x[i]).0 == y[i].0 && same_shape(x[i].1, y[i].1)
        },
        _ => a == b,
    }
}

/// Whether `text`, if it parses at all, parses to a value of the shape of `t`.
pub open spec fn keeps_shape(t: JsonTree, text: Seq<char>) -> bool {
    json_parsed(text) matches Some(parsed) ==> same_shape(t, parsed)
}

/// What a list of JSON values says.
pub open spec fn trees(items: Seq<Json>) -> Seq<JsonTree> {
    Seq::new(items.len(), |i: int| items[i].tree())
}

/// What a list of members says.
pub open spec fn members(ms: Seq<(String, Json)>) -> Members {
    Seq::new(ms.len(), |i: int| (ms[i].0@, ms[i].1.tree()))
}

impl Json {
    /// What the value says.
    pub open spec fn tree(self) -> JsonTree
        decreases self,
    {
        match self {
            Json::Null => JsonTree::Null,
            Json::Bool(b) => JsonTree::Bool(b),
            Json::Int(i) => JsonTree::Int(i as int),
            Json::Big(u) => JsonTree::Int(u as int),
            Json::Other(n) => JsonTree::Other(n),
            Json::Text(s) => JsonTree::Text(s@),
            Json::Array(items) => JsonTree::Array(
                Seq::new(
                    items@.len(),
                    |i: int|
                        if 0 <= i < items@.len() {
                            items@[i].tree()
                        } else {
                            JsonTree::Null
                        },
                ),
            ),
            Json::Object(ms) => JsonTree::Object(
                Seq::new(
                    ms@.len(),
                    |i: int|
                        if 0 <= i < ms@.len() {
                            (ms@[i].0@, ms@[i].1.tree())
                        } else {
                            (Seq::empty(), JsonTree::Null)
                        },
                ),
            ),
        }
    }
}

/// An array says what its items say.
pub broadcast proof fn lemma_array_tree(items: Vec<Json>)
    ensures
        (#[trigger] Json::Array(items).tree()) == JsonTree::Array(trees(items@)),
{
    assert(Json::Array(items).tree()->Array_0 =~= trees(items@));
}

/// An object says what its members say.
pub broadcast proof fn lemma_object_tree(ms: Vec<(String, Json)>)
    ensures
        (#[trigger] Json::Object(ms).tree()) == JsonTree::Object(members(ms@)),
{
    assert(Json::Object(ms).tree()->Object_0 =~= members(ms@));
}

/// Where the last member of a name stands.
pub proof fn lemma_last_index(ms: Members, name: Seq<char>)
    ensures
        -1 <= last_index(ms, name) < ms.len(),
        last_index(ms, name) >= 0 ==> ms[last_index(ms, name)].0 == name,
        forall|i: int| last_index(ms, name) < i < ms.len() ==> (#[trigger] ms[i]).0 != name,
    decreases ms.len(),
{
    if ms.len() > 0 && ms.last().0 != name {
        lemma_last_index(ms.drop_last(), name);
        assert forall|i: int| last_index(ms, name) < i < ms.len() implies (
        #[trigger] ms[i]).0 != name by {
            if i < ms.len() - 1 {
                assert(ms.drop_last()[i].0 != name);
            }
        }
    }
}

/// A count as a number.
pub fn count_json(n: u64) -> (r: Json)
    ensures
        r.tree() == JsonTree::Int(n as int),
{
    if n <= i64::MAX as u64 {
        Json::Int(n as i64)
    } else {
        Json::Big(n)
    }
}

impl Json {
    /// The value of the member called `name`, if this is an object that has one.
    pub fn get(&self, name: &str) -> (r: Option<&Json>)
        ensures
            match r {
                Some(j) => self.tree().member(name@) == Some(j.tree()),
                None => self.tree().member(name@) is None,
            },
    {
        broadcast use lemma_object_tree;

        match self {
            Json::Object(ms) => match member_index(ms, name) {
                Some(i) => Some(&ms[i].1),
                None => None,
            },
            _ => None,
        }
    }

    /// The text, if this is one.
    pub fn as_str(&self) -> (r: Option<&str>)
        ensures
            match r {
                Some(s) => self.tree().text() == Some(s@),
                None => self.tree().text() is None,
            },
    {
        match self {
            Json::Text(s) => Some(s.as_str()),
            _ => None,
        }
    }

    /// The items, if this is an array.
    pub fn as_array(&self) -> (r: Option<&Vec<Json>>)
        ensures
            match r {
                Some(items) => self.tree().items() == Some(trees(items@)),
                None => self.tree().items() is None,
            },
    {
        broadcast use lemma_array_tree;

        match self {
            Json::Array(items) => Some(items),
            _ => None,
        }
    }

    /// The number, if this is one that fits in an `i64`.
    pub fn as_i64(&self) -> (r: Option<i64>)
        ensures
            r == self.tree().whole(),
    {
        match self {
            Json::Int(i) => Some(*i),
            Json::Big(u) => if *u <= i64::MAX as u64 {
                Some(*u as i64)
            } else {
                None
            },
            _ => None,
        }
    }
}

/// The position of the last member called `name`.
pub fn member_index(ms: &Vec<(String, Json)>, name: &str) -> (r: Option<usize>)
    ensures
        match r {
            Some(i) => i < ms@.len() && last_index(members(ms@), name@) == i,
            None => last_index(members(ms@), name@) == -1,
        },
{
    let mut i: usize = ms.len();
    assert(members(ms@).take(i as int) =~= members(ms@));
    while i > 0
        invariant
            i <= ms@.len(),
            last_index(members(ms@), name@) == last_index(members(ms@).take(i as int), name@),
        decreases i,
    {
        assert(members(ms@).take(i as int).drop_last() =~= members(ms@).take(i - 1));
        i = i - 1;
        if text::text_eq(ms[i].0.as_str(), name) {
            return Some(i);
        }
    }
    None
}

/// The members that are not called `name`, and whether there was one.
pub fn remove_member(ms: Vec<(String, Json)>, name: &str) -> (r: (Vec<(String, Json)>, bool))
    ensures
        members(r.0@) == without_member(members(ms@), name@),
        r.1 == has_member(members(ms@), name@),
{
    let ghost all = ms@;
    let mut out: Vec<(String, Json)> = Vec::new();
    let mut found: bool = false;
    assert(members(all).take(0) =~= Seq::empty());
    for member in it: ms
        invariant
            it.seq() == all,
            0 <= it.index() <= all.len(),
            members(out@) == without_member(members(all).take(it.index()), name@),
            found == has_member(members(all).take(it.index()), name@),
    {
        let ghost k = it.index();
        let ghost before = out@;
        assert(members(all).take(k + 1).drop_last() =~= members(all).take(k));
        assert(members(all).take(k + 1).last() == (member.0@, member.1.tree()));
        if text::text_eq(member.0.as_str(), name) {
            found = true;
        } else {
            out.push(member);
            assert(members(out@) =~= members(before).push((member.0@, member.1.tree())));
        }
    }
    assert(members(all).take(all.len() as int) =~= members(all));
    (out, found)
}

/// Give the last member called `name` a new value. Without such a member nothing changes.
pub fn set_member(ms: &mut Vec<(String, Json)>, name: &str, value: Json)
    ensures
        members(final(ms)@) == if has_member(members(old(ms)@), name@) {
            with_value(members(old(ms)@), name@, value.tree())
        } else {
            members(old(ms)@)
        },
{
    match member_index(ms, name) {
        Some(i) => {
            ms.set(i, (name.to_string(), value));
            assert(members(ms@) =~= with_value(members(old(ms)@), name@, value.tree()));
        },
        None => {},
    }
}

/// `Number`'s own `clone`, a derived one: the clone is the same number.
pub assume_specification[ <Number as Clone>::clone ](n: &Number) -> (r: Number)
    ensures
        r == *n,
;

impl Clone for OtherNumber {
    fn clone(&self) -> (r: Self)
        ensures
            r == *self,
    {
        OtherNumber { number: self.number.clone() }
    }
}

impl Clone for Json {
    fn clone(&self) -> (r: Self)
        ensures
            r.tree() == self.tree(),
        decreases self,
    {
        match self {
            Json::Null => Json::Null,
            Json::Bool(b) => Json::Bool(*b),
            Json::Int(i) => Json::Int(*i),
            Json::Big(u) => Json::Big(*u),
            Json::Other(n) => Json::Other(n.clone()),
            Json::Text(s) => Json::Text(s.clone()),
            Json::Array(items) => {
                let mut out: Vec<Json> = Vec::new();
                let mut i: usize = 0;
                while i < items.len()
                    invariant
                        *self == Json::Array(*items),
                        i <= items@.len(),
                        trees(out@) =~= trees(items@).take(i as int),
                    decreases items@.len() - i,
                {
                    assert(decreases_to!(self->Array_0 => items@[i as int]));
                    let copy = items[i].clone();
                    let ghost before = out@;
                    out.push(copy);
                    assert(trees(out@) =~= trees(before).push(copy.tree()));
                    assert(trees(items@).take(i + 1) =~= trees(items@).take(i as int).push(
                        copy.tree(),
                    ));
                    i = i + 1;
                }
                assert(trees(items@).take(items@.len() as int) =~= trees(items@));
                proof {
                    lemma_array_tree(out);
                    lemma_array_tree(*items);
                }
                Json::Array(out)
            },
            Json::Object(ms) => {
                let mut out: Vec<(String, Json)> = Vec::new();
                let mut i: usize = 0;
                while i < ms.len()
                    invariant
                        *self == Json::Object(*ms),
                        i <= ms@.len(),
                        members(out@) =~= members(ms@).take(i as int),
                    decreases ms@.len() - i,
                {
                    assert(decreases_to!(self->Object_0 => ms@[i as int]));
                    assert(decreases_to!(ms@[i as int] => ms@[i as int].1));
                    let copy = ms[i].1.clone();
                    let name = ms[i].0.clone();
                    let ghost before = out@;
                    out.push((name, copy));
                    assert(members(out@) =~= members(before).push((name@, copy.tree())));
                    assert(members(ms@).take(i + 1) =~= members(ms@).take(i as int).push(
                        (name@, copy.tree()),
                    ));
                    i = i + 1;
                }
                assert(members(ms@).take(ms@.len() as int) =~= members(ms@));
                proof {
                    lemma_object_tree(out);
                    lemma_object_tree(*ms);
                }
                Json::Object(out)
            },
        }
    }
}

/// Put a member in its place among members in order; one of the same name is replaced.
fn insert_sorted(ms: &mut Vec<(String, Json)>, name: String, value: Json)
    ensures
        members(final(ms)@) == insert_member(members(old(ms)@), name@, value.tree()),
{
    let ghost all = members(ms@);
    let mut i: usize = ms.len();
    assert(all.take(i as int) =~= all);
    assert(insert_member(all, name@, value.tree()) =~= insert_member(
        all.take(i as int),
        name@,
        value.tree(),
    ) + all.skip(i as int));
    while i > 0
        invariant
            i <= ms@.len(),
            all == members(ms@),
            members(old(ms)@) == all,
            insert_member(all, name@, value.tree()) == insert_member(
                all.take(i as int),
                name@,
                value.tree(),
            ) + all.skip(i as int),
        decreases i,
    {
        let ghost head = all.take(i as int);
        assert(head.drop_last() =~= all.take(i - 1));
        assert(head.last() == all[i - 1]);
        if text::text_eq(ms[i - 1].0.as_str(), name.as_str()) {
            ms.set(i - 1, (name, value));
            assert(members(ms@) =~= all.take(i - 1).push((name@, value.tree())) + all.skip(
                i as int,
            ));
            return;
        }
        if text::text_less(ms[i - 1].0.as_str(), name.as_str()) {
            ms.insert(i, (name, value));
            assert(members(ms@) =~= head.push((name@, value.tree())) + all.skip(i as int));
            return;
        }
        assert(insert_member(head, name@, value.tree()) == insert_member(
            all.take(i - 1),
            name@,
            value.tree(),
        ).push(all[i - 1]));
        assert(insert_member(all.take(i - 1), name@, value.tree()).push(all[i - 1]) + all.skip(
            i as int,
        ) =~= insert_member(all.take(i - 1), name@, value.tree()) + all.skip(i - 1));
        i = i - 1;
    }
    ms.insert(0, (name, value));
    assert(all.take(0) =~= Seq::empty());
    assert(members(ms@) =~= seq![(name@, value.tree())] + all.skip(0));
}

/// A JSON value with the members of every object, at any depth, in the order of
/// their names.
pub fn sort_keys(value: &Json) -> (r: Json)
    ensures
        r.tree() == value.tree().sorted(),
    decreases value,
{
    match value {
        Json::Array(items) => {
            let mut out: Vec<Json> = Vec::new();
            let mut i: usize = 0;
            while i < items.len()
                invariant
                    *value == Json::Array(*items),
                    i <= items@.len(),
                    out@.len() == i,
                    forall|k: int|
                        0 <= k < i ==> (#[trigger] out@[k]).tree() == items@[k].tree().sorted(),
                decreases items@.len() - i,
            {
                assert(decreases_to!(value->Array_0 => items@[i as int]));
                out.push(sort_keys(&items[i]));
                i = i + 1;
            }
            proof {
                lemma_array_tree(out);
                lemma_array_tree(*items);
                assert(value.tree().sorted() is Array);
                assert(trees(out@) =~= value.tree().sorted()->Array_0);
            }
            Json::Array(out)
        },
        Json::Object(ms) => {
            let mut out: Vec<(String, Json)> = Vec::new();
            let mut i: usize = 0;
            assert(members(out@) =~= sorted_members(members(ms@).take(0)));
            while i < ms.len()
                invariant
                    *value == Json::Object(*ms),
                    i <= ms@.len(),
                    members(out@) == sorted_members(members(ms@).take(i as int)),
                decreases ms@.len() - i,
            {
                assert(decreases_to!(value->Object_0 => ms@[i as int]));
                assert(decreases_to!(ms@[i as int] => ms@[i as int].1));
                let sorted = sort_keys(&ms[i].1);
                insert_sorted(&mut out, ms[i].0.clone(), sorted);
                assert(members(ms@).take(i + 1).drop_last() =~= members(ms@).take(i as int));
                i = i + 1;
            }
            proof {
                lemma_object_tree(out);
                lemma_object_tree(*ms);
                assert(members(ms@).take(ms@.len() as int) =~= members(ms@));
            }
            Json::Object(out)
        },
        _ => value.clone(),
    }
}

/// What a `Value` of `serde_json` holds. The members of an object are listed in
/// the order in which its map walks them, that of their names.
pub uninterp spec fn value_tree(v: Value) -> JsonTree;

/// What `serde_json::from_str` makes of a text as a `Value`: nothing where it
/// reports an error.
pub uninterp spec fn json_parsed(text: Seq<char>) -> Option<JsonTree>;

/// The text that `serde_json::to_string` makes of a `Value` that holds `tree`.
pub uninterp spec fn json_printed(tree: JsonTree) -> Seq<char>;

/// A `Value` opened by one level.
enum Shape {
    Null,
    Bool(bool),
    Int(i64),
    Big(u64),
    Other(OtherNumber),
    Text(String),
    Array(Vec<Value>),
    Object(Vec<(String, Value)>),
}

impl Shape {
    spec fn tree(self) -> JsonTree {
        match self {
            Shape::Null => JsonTree::Null,
            Shape::Bool(b) => JsonTree::Bool(b),
            Shape::Int(i) => JsonTree::Int(i as int),
            Shape::Big(u) => JsonTree::Int(u as int),
            Shape::Other(n) => JsonTree::Other(n),
            Shape::Text(s) => JsonTree::Text(s@),
            Shape::Array(items) => JsonTree::Array(
                Seq::new(items@.len(), |i: int| value_tree(items@[i])),
            ),
            Shape::Object(ms) => JsonTree::Object(
                Seq::new(ms@.len(), |i: int| (ms@[i].0@, value_tree(ms@[i].1))),
            ),
        }
    }

    /// Whether the members, if there are any, stand in the order of their names.
    spec fn ordered(self) -> bool {
        match self.tree() {
            JsonTree::Object(ms) => in_order(ms),
            _ => true,
        }
    }
}

/// `serde_json::from_str` as a `Value`. Its error is dropped.
#[verifier::external_body]
fn value_from_text(text: &str) -> (r: Option<Value>)
    ensures
        (match r {
            Some(v) => json_parsed(text@) == Some(value_tree(v)),
            None => json_parsed(text@) is None,
        }),
{
    serde_json::from_str(text).ok()
}

/// `serde_json::to_string` of a `Value`. It cannot fail: a `Value` is written to
/// memory, and the names of its members are strings. `serde_json::from_str` reads
/// the text back, unless it nests deeper than that allows, holds fractions, which
/// may come back as their neighbours or be out of range, or has an object that
/// starts with a member called `raw_name`, which the feature `raw_value` of
/// `serde_json` reads in a way of its own. Nothing but a fraction comes back as
/// something else: a fraction is written with a point or an exponent, by which it
/// is told from an integer. Which text a fraction gets, and which one it comes back
/// as, is not stated.
#[verifier::external_body]
fn value_text(v: &Value) -> (r: Option<String>)
    ensures
        r is Some && r->0@ == json_printed(value_tree(*v)),
        plain(value_tree(*v), nesting_limit()) ==> json_parsed(r->0@) == Some(value_tree(*v)),
        tame(value_tree(*v)) ==> keeps_shape(value_tree(*v), r->0@),
{
    serde_json::to_string(v).ok()
}

/// The variants of `Value`, with `Number::as_i64` and `Number::as_u64` to tell
/// integers from other numbers. Without the feature `preserve_order` of `serde_json`
/// the map of an object is a sorted one, so its members come in the order of
/// their names and no name comes twice.
#[verifier::external_body]
fn shape_of(v: Value) -> (r: Shape)
    ensures
        r.tree() == value_tree(v),
        r.ordered(),
{
    match v {
        Value::Null => Shape::Null,
        Value::Bool(b) => Shape::Bool(b),
        Value::Number(n) => match (n.as_i64(), n.as_u64()) {
            (Some(i), _) => Shape::Int(i),
            (None, Some(u)) => Shape::Big(u),
            (None, None) => Shape::Other(OtherNumber { number: n }),
        },
        Value::String(s) => Shape::Text(s),
        Value::Array(items) => Shape::Array(items),
        Value::Object(ms) => Shape::Object(ms.into_iter().collect()),
    }
}

/// The variants of `Value` and the conversions of integers and of members into
/// it. The map of an object keeps the members it is given: no name comes twice,
/// and they stand in the order in which the map walks them.
#[verifier::external_body]
fn value_build(shape: Shape) -> (r: Value)
    requires
        shape.ordered(),
    ensures
        value_tree(r) == shape.tree(),
{
    match shape {
        Shape::Null => Value::Null,
        Shape::Bool(b) => Value::Bool(b),
        Shape::Int(i) => Value::from(i),
        Shape::Big(u) => Value::from(u),
        Shape::Other(n) => Value::Number(n.number),
        Shape::Text(s) => Value::String(s),
        Shape::Array(items) => Value::Array(items),
        Shape::Object(ms) => Value::Object(ms.into_iter().collect()),
    }
}

/// What a `Value` holds, as a `Json`.
pub fn json_of(v: Value) -> (r: Json)
    ensures
        r.tree() == value_tree(v),
        r.tree().is_sorted(),
    decreases value_tree(v),
{
    let ghost whole = value_tree(v);
    match shape_of(v) {
        Shape::Null => Json::Null,
        Shape::Bool(b) => Json::Bool(b),
        Shape::Int(i) => Json::Int(i),
        Shape::Big(u) => Json::Big(u),
        Shape::Other(n) => Json::Other(n),
        Shape::Text(s) => Json::Text(s),
        Shape::Array(items) => {
            let ghost all = items@;
            let mut out: Vec<Json> = Vec::new();
            for item in it: items
                invariant
                    it.seq() == all,
                    whole == value_tree(v),
                    whole == JsonTree::Array(Seq::new(all.len(), |i: int| value_tree(all[i]))),
                    out@.len() == it.index(),
                    forall|i: int|
                        0 <= i < out@.len() ==> {
                            &&& (#[trigger] out@[i]).tree() == value_tree(all[i])
                            &&& out@[i].tree().is_sorted()
                        },
            {
                assert(whole->Array_0[it.index()] == value_tree(item));
                out.push(json_of(item));
            }
            proof {
                lemma_array_tree(out);
                assert(trees(out@) =~= whole->Array_0);
            }
            Json::Array(out)
        },
        Shape::Object(ms) => {
            let ghost all = ms@;
            let mut out: Vec<(String, Json)> = Vec::new();
            for member in it: ms
                invariant
                    it.seq() == all,
                    whole == value_tree(v),
                    whole == JsonTree::Object(
                        Seq::new(all.len(), |i: int| (all[i].0@, value_tree(all[i].1))),
                    ),
                    out@.len() == it.index(),
                    forall|i: int|
                        0 <= i < out@.len() ==> {
                            &&& (#[trigger] out@[i]).0@ == all[i].0@
                            &&& out@[i].1.tree() == value_tree(all[i].1)
                            &&& out@[i].1.tree().is_sorted()
                        },
            {
                assert(whole->Object_0[it.index()].1 == value_tree(member.1));
                out.push((member.0, json_of(member.1)));
            }
            proof {
                lemma_object_tree(out);
                assert(members(out@) =~= whole->Object_0);
            }
            Json::Object(out)
        },
    }
}

/// A `Json` whose members stand in order, as a `Value`.
fn value_of(j: Json) -> (r: Value)
    requires
        j.tree().is_sorted(),
    ensures
        value_tree(r) == j.tree(),
    decreases j,
{
    let ghost whole = j.tree();
    match j {
        Json::Null => value_build(Shape::Null),
        Json::Bool(b) => value_build(Shape::Bool(b)),
        Json::Int(i) => value_build(Shape::Int(i)),
        Json::Big(u) => value_build(Shape::Big(u)),
        Json::Other(n) => value_build(Shape::Other(n)),
        Json::Text(s) => value_build(Shape::Text(s)),
        Json::Array(items) => {
            let ghost all = items@;
            proof {
                lemma_array_tree(items);
            }
            let mut out: Vec<Value> = Vec::new();
            for item in it: items
                invariant
                    it.seq() == all,
                    j == Json::Array(items),
                    items@ == all,
                    whole == JsonTree::Array(trees(all)),
                    whole.is_sorted(),
                    out@.len() == it.index(),
                    forall|i: int|
                        0 <= i < out@.len() ==> value_tree(#[trigger] out@[i]) == all[i].tree(),
            {
                assert(decreases_to!(j->Array_0 => items@[it.index()]));
                assert(whole->Array_0[it.index()].is_sorted());
                out.push(value_of(item));
            }
            let shape = Shape::Array(out);
            assert(shape.tree()->Array_0 =~= trees(all));
            value_build(shape)
        },
        Json::Object(ms) => {
            let ghost all = ms@;
            proof {
                lemma_object_tree(ms);
            }
            let mut out: Vec<(String, Value)> = Vec::new();
            for member in it: ms
                invariant
                    it.seq() == all,
                    j == Json::Object(ms),
                    ms@ == all,
                    whole == JsonTree::Object(members(all)),
                    whole.is_sorted(),
                    out@.len() == it.index(),
                    forall|i: int|
                        0 <= i < out@.len() ==> {
                            &&& (#[trigger] out@[i]).0@ == all[i].0@
                            &&& value_tree(out@[i].1) == all[i].1.tree()
                        },
            {
                assert(decreases_to!(j->Object_0 => ms@[it.index()]));
                assert(decreases_to!(ms@[it.index()] => ms@[it.index()].1));
                assert(whole->Object_0[it.index()].1.is_sorted());
                out.push((member.0, value_of(member.1)));
            }
            let shape = Shape::Object(out);
            assert(shape.tree()->Object_0 =~= members(all));
            value_build(shape)
        },
    }
}

/// Parse a text as JSON. The members of a parsed object stand in the order of
/// their names.
pub fn parse_json(text: &str) -> (r: Option<Json>)
    ensures
        match r {
            Some(j) => json_parsed(text@) == Some(j.tree()) && j.tree().is_sorted(),
            None => json_parsed(text@) is None,
        },
{
    match value_from_text(text) {
        Some(v) => Some(json_of(v)),
        None => None,
    }
}

/// Whether two values say the same but for the order in which the members of
/// their objects stand.
pub open spec fn same_up_to_order(a: JsonTree, b: JsonTree) -> bool
    decreases a,
{
    match (a, b) {
        (JsonTree::Array(x), JsonTree::Array(y)) => {
            &&& x.len() == y.len()
            &&& forall|i: int| 0 <= i < x.len() ==> same_up_to_order(#[trigger] x[i], y[i])
        },
        (JsonTree::Object(x), JsonTree::Object(y)) => {
            &&& forall|i: int|
                0 <= i < x.len() && i == last_index(x, x[i].0) ==> {
                    &&& has_member(y, (#[trigger] x[i]).0)
                    &&& same_up_to_order(x[i].1, y[last_index(y, x[i].0)].1)
                }
            &&& forall|i: int| 0 <= i < y.len() ==> has_member(x, (#[trigger] y[i]).0)
        },
        _ => a == b,
    }
}

/// Members put in order stay in order, and one insertion changes what is found
/// under one name.
pub proof fn lemma_insert_member(ms: Members, name: Seq<char>, value: JsonTree)
    requires
        in_order(ms),
    ensures
        in_order(insert_member(ms, name, value)),
        insert_member(ms, name, value).len() > 0,
        insert_member(ms, name, value).last().0 == name || (ms.len() > 0 && insert_member(
            ms,
            name,
            value,
        ).last() == ms.last()),
        forall|n: Seq<char>| #[trigger]
            find_member(insert_member(ms, name, value), n) == if n == name {
                Some(value)
            } else {
                find_member(ms, n)
            },
    decreases ms.len(),
{
    let out = insert_member(ms, name, value);
    if ms.len() == 0 {
        assert(out.drop_last() =~= ms);
        assert forall|n: Seq<char>| #[trigger]
            find_member(out, n) == if n == name {
                Some(value)
            } else {
                find_member(ms, n)
            } by {
            lemma_last_index(ms, n);
        }
    } else if ms.last().0 == name {
        assert(out.drop_last() =~= ms.drop_last());
        assert forall|n: Seq<char>| #[trigger]
            find_member(out, n) == if n == name {
                Some(value)
            } else {
                find_member(ms, n)
            } by {
            lemma_last_index(ms.drop_last(), n);
        }
    } else if text::name_less(ms.last().0, name) {
        assert(out.drop_last() =~= ms);
        assert forall|i: int, j: int| 0 <= i < j < out.len() implies text::name_less(
            out[i].0,
            out[j].0,
        ) by {
            if j == out.len() - 1 && i < ms.len() - 1 {
                assert(text::name_less(ms[i].0, ms.last().0));
                text::lemma_less_transitive(ms[i].0, ms.last().0, name);
            }
        }
        assert forall|n: Seq<char>| #[trigger]
            find_member(out, n) == if n == name {
                Some(value)
            } else {
                find_member(ms, n)
            } by {
            lemma_last_index(ms, n);
        }
    } else {
        text::lemma_less_total(ms.last().0, name);
        let rest = ms.drop_last();
        lemma_insert_member(rest, name, value);
        let head = insert_member(rest, name, value);
        assert(out.drop_last() =~= head);
        assert forall|i: int, j: int| 0 <= i < j < out.len() implies text::name_less(
            out[i].0,
            out[j].0,
        ) by {
            if j == out.len() - 1 {
                if head.last().0 == name {
                    if i < head.len() - 1 {
                        assert(text::name_less(head[i].0, name));
                        text::lemma_less_transitive(head[i].0, name, ms.last().0);
                    }
                } else {
                    assert(text::name_less(rest.last().0, ms.last().0));
                    if i < head.len() - 1 {
                        assert(text::name_less(head[i].0, head.last().0));
                        text::lemma_less_transitive(head[i].0, head.last().0, ms.last().0);
                    }
                }
            } else {
                assert(text::name_less(head[i].0, head[j].0));
            }
        }
        assert forall|n: Seq<char>| #[trigger]
            find_member(out, n) == if n == name {
                Some(value)
            } else {
                find_member(ms, n)
            } by {
            lemma_last_index(rest, n);
            lemma_last_index(head, n);
            assert(find_member(head, n) == if n == name {
                Some(value)
            } else {
                find_member(rest, n)
            });
        }
    }
}

/// Sorting puts members in order and keeps what is found under each name, sorted.
pub proof fn lemma_sorted_members(ms: Members)
    ensures
        in_order(sorted_members(ms)),
        forall|n: Seq<char>| #[trigger]
            find_member(sorted_members(ms), n) == match find_member(ms, n) {
                Some(v) => Some(v.sorted()),
                None => None,
            },
    decreases ms.len(),
{
    if ms.len() > 0 {
        lemma_sorted_members(ms.drop_last());
        lemma_insert_member(sorted_members(ms.drop_last()), ms.last().0, ms.last().1.sorted());
        assert forall|n: Seq<char>| #[trigger]
            find_member(sorted_members(ms), n) == match find_member(ms, n) {
                Some(v) => Some(v.sorted()),
                None => None,
            } by {
            lemma_last_index(ms.drop_last(), n);
            assert(find_member(sorted_members(ms.drop_last()), n) == match find_member(
                ms.drop_last(),
                n,
            ) {
                Some(v) => Some(v.sorted()),
                None => None,
            });
        }
    }
}

/// In members in order every position is the last one of its name.
pub proof fn lemma_in_order_index(ms: Members, i: int)
    requires
        in_order(ms),
        0 <= i < ms.len(),
    ensures
        last_index(ms, ms[i].0) == i,
{
    lemma_last_index(ms, ms[i].0);
    let k = last_index(ms, ms[i].0);
    if k > i {
        text::lemma_less_irreflexive(ms[i].0);
    }
}

/// Members in order are determined by what is found under each name.
pub proof fn lemma_in_order_unique(a: Members, b: Members)
    requires
        in_order(a),
        in_order(b),
        forall|n: Seq<char>| #[trigger] find_member(a, n) == find_member(b, n),
    ensures
        a == b,
    decreases a.len(),
{
    if a.len() == 0 {
        if b.len() > 0 {
            assert(find_member(b, b.last().0) is Some);
            assert(find_member(a, b.last().0) is None);
        }
        assert(a =~= b);
    } else {
        let name = a.last().0;
        assert(find_member(a, name) is Some);
        assert(find_member(b, name) == find_member(a, name));
        lemma_last_index(b, name);
        assert(b.len() > 0);
        let other = b.last().0;
        assert(find_member(b, other) is Some);
        assert(find_member(a, other) == find_member(b, other));
        lemma_last_index(a, other);
        if other != name {
            let i = last_index(b, name);
            let j = last_index(a, other);
            assert(text::name_less(b[i].0, b[b.len() - 1].0));
            assert(text::name_less(a[j].0, a[a.len() - 1].0));
            text::lemma_less_transitive(name, other, name);
            text::lemma_less_irreflexive(name);
        }
        let ra = a.drop_last();
        let rb = b.drop_last();
        assert forall|n: Seq<char>| #[trigger] find_member(ra, n) == find_member(rb, n) by {
            assert(find_member(a, n) == find_member(b, n));
            lemma_last_index(ra, n);
            lemma_last_index(rb, n);
            if n == name {
                if has_member(ra, name) {
                    lemma_in_order_index(a, last_index(ra, name));
                }
                if has_member(rb, name) {
                    lemma_in_order_index(b, last_index(rb, name));
                }
            }
        }
        lemma_in_order_unique(ra, rb);
        assert(a =~= ra.push(a.last()));
        assert(b =~= rb.push(b.last()));
    }
}

/// Sorting leaves every object, at any depth, in order.
pub proof fn lemma_sorted_is_sorted(t: JsonTree)
    ensures
        t.sorted().is_sorted(),
    decreases t,
{
    match t {
        JsonTree::Array(items) => {
            assert forall|i: int| 0 <= i < items.len() implies (
            #[trigger] t.sorted()->Array_0[i]).is_sorted() by {
                lemma_sorted_is_sorted(items[i]);
            }
        },
        JsonTree::Object(ms) => {
            lemma_sorted_members(ms);
            let out = sorted_members(ms);
            assert forall|i: int| 0 <= i < out.len() implies (#[trigger] out[i]).1.is_sorted() by {
                lemma_in_order_index(out, i);
                lemma_last_index(ms, out[i].0);
                assert(find_member(out, out[i].0) == Some(out[i].1));
                let k = last_index(ms, out[i].0);
                assert(out[i].1 == ms[k].1.sorted());
                assert(decreases_to!(t->Object_0 => ms[k]));
                assert(decreases_to!(ms[k] => ms[k].1));
                lemma_sorted_is_sorted(ms[k].1);
            }
        },
        _ => {},
    }
}

/// A plain value stays plain when it is sorted.
pub proof fn lemma_plain_sorted(t: JsonTree, room: nat)
    requires
        plain(t, room),
    ensures
        plain(t.sorted(), room),
    decreases t,
{
    match t {
        JsonTree::Array(items) => {
            assert forall|i: int| 0 <= i < items.len() implies plain(
                #[trigger] t.sorted()->Array_0[i],
                (room - 1) as nat,
            ) by {
                assert(plain(items[i], (room - 1) as nat));
                lemma_plain_sorted(items[i], (room - 1) as nat);
            }
        },
        JsonTree::Object(ms) => {
            lemma_sorted_members(ms);
            let out = sorted_members(ms);
            assert forall|i: int| 0 <= i < out.len() implies (#[trigger] out[i]).0 != raw_name()
                && plain(out[i].1, (room - 1) as nat) by {
                lemma_in_order_index(out, i);
                lemma_last_index(ms, out[i].0);
                assert(find_member(out, out[i].0) == Some(out[i].1));
                let k = last_index(ms, out[i].0);
                assert(decreases_to!(t->Object_0 => ms[k]));
                assert(decreases_to!(ms[k] => ms[k].1));
                assert(ms[k].0 != raw_name() && plain(ms[k].1, (room - 1) as nat));
                lemma_plain_sorted(ms[k].1, (room - 1) as nat);
            }
        },
        _ => {},
    }
}

/// In values of one shape values of one shape are found under each name.
pub proof fn lemma_same_shape_member(a: JsonTree, b: JsonTree, name: Seq<char>)
    requires
        same_shape(a, b),
    ensures
        match (a.member(name), b.member(name)) {
            (Some(x), Some(y)) => same_shape(x, y),
            (None, None) => true,
            _ => false,
        },
{
    match (a, b) {
        (JsonTree::Object(x), JsonTree::Object(y)) => {
            lemma_last_index(x, name);
            lemma_last_index(y, name);
            let i = last_index(x, name);
            let j = last_index(y, name);
            if i >= 0 {
                assert(x[i].0 == y[i].0);
            }
            if j >= 0 {
                assert(x[j].0 == y[j].0);
            }
        },
        _ => {},
    }
}

/// Sorting keeps what is found under each name, sorted.
pub proof fn law_sorting_keeps_members(t: JsonTree, name: Seq<char>)
    ensures
        t.sorted().member(name) == match t.member(name) {
            Some(value) => Some(value.sorted()),
            None => None,
        },
{
    match t {
        JsonTree::Object(ms) => {
            lemma_sorted_members(ms);
            assert(find_member(sorted_members(ms), name) == match find_member(ms, name) {
                Some(value) => Some(value.sorted()),
                None => None,
            });
        },
        _ => {},
    }
}

/// Sorting twice is sorting once.
pub proof fn law_sorting_twice_is_sorting_once(t: JsonTree)
    ensures
        t.sorted().sorted() == t.sorted(),
{
    lemma_sorted_is_sorted(t);
    lemma_sorted_fixed(t.sorted());
}

/// Sorting a value that is in order changes nothing.
pub proof fn lemma_sorted_fixed(t: JsonTree)
    requires
        t.is_sorted(),
    ensures
        t.sorted() == t,
    decreases t,
{
    match t {
        JsonTree::Array(items) => {
            assert forall|i: int| 0 <= i < items.len() implies t.sorted()->Array_0[i]
                == items[i] by {
                lemma_sorted_fixed(items[i]);
            }
            assert(t.sorted()->Array_0 =~= items);
        },
        JsonTree::Object(ms) => {
            lemma_sorted_members(ms);
            assert forall|n: Seq<char>| #[trigger]
                find_member(sorted_members(ms), n) == find_member(ms, n) by {
                lemma_last_index(ms, n);
                if has_member(ms, n) {
                    let k = last_index(ms, n);
                    assert(decreases_to!(t->Object_0 => ms[k]));
                    assert(decreases_to!(ms[k] => ms[k].1));
                    lemma_sorted_fixed(ms[k].1);
                }
            }
            lemma_in_order_unique(sorted_members(ms), ms);
        },
        _ => {},
    }
}

/// Values that say the same but for the order of members are the same once sorted.
pub proof fn lemma_order_is_irrelevant(a: JsonTree, b: JsonTree)
    requires
        same_up_to_order(a, b),
    ensures
        a.sorted() == b.sorted(),
    decreases a,
{
    match (a, b) {
        (JsonTree::Array(x), JsonTree::Array(y)) => {
            assert forall|i: int| 0 <= i < x.len() implies x[i].sorted() == y[i].sorted() by {
                assert(same_up_to_order(x[i], y[i]));
                lemma_order_is_irrelevant(x[i], y[i]);
            }
            assert(a.sorted()->Array_0 =~= b.sorted()->Array_0);
        },
        (JsonTree::Object(x), JsonTree::Object(y)) => {
            lemma_sorted_members(x);
            lemma_sorted_members(y);
            assert forall|n: Seq<char>| #[trigger]
                find_member(sorted_members(x), n) == find_member(sorted_members(y), n) by {
                lemma_last_index(x, n);
                lemma_last_index(y, n);
                let i = last_index(x, n);
                let j = last_index(y, n);
                if j >= 0 {
                    assert(has_member(x, y[j].0));
                }
                if i >= 0 {
                    assert(has_member(y, x[i].0));
                    assert(same_up_to_order(x[i].1, y[j].1));
                    assert(decreases_to!(a->Object_0 => x[i]));
                    assert(decreases_to!(x[i] => x[i].1));
                    lemma_order_is_irrelevant(x[i].1, y[j].1);
                }
                assert(find_member(sorted_members(x), n) == match find_member(x, n) {
                    Some(v) => Some(v.sorted()),
                    None => None,
                });
                assert(find_member(sorted_members(y), n) == match find_member(y, n) {
                    Some(v) => Some(v.sorted()),
                    None => None,
                });
            }
            lemma_in_order_unique(sorted_members(x), sorted_members(y));
        },
        _ => {},
    }
}

/// A `Json` as a `Value`, the members of its objects in the order of their names.
pub fn value_from(j: &Json) -> (r: Value)
    ensures
        value_tree(r) == j.tree().sorted(),
{
    let sorted = sort_keys(j);
    proof {
        lemma_sorted_is_sorted(j.tree());
    }
    value_of(sorted)
}

/// The compact text of a value, the members of its objects in the order of their
/// names. A plain value is what its text parses to; one with fractions, nested too
/// deep or with a member called `raw_name` may not be. Where no object, sorted,
/// starts with `raw_name`, a text that parses has the shape of the value.
pub fn print_json(j: &Json) -> (r: String)
    ensures
        r@ == json_printed(j.tree().sorted()),
        plain(j.tree(), nesting_limit()) ==> json_parsed(r@) == Some(j.tree().sorted()),
        tame(j.tree().sorted()) ==> keeps_shape(j.tree().sorted(), r@),
{
    proof {
        if plain(j.tree(), nesting_limit()) {
            lemma_plain_sorted(j.tree(), nesting_limit());
        }
    }
    match value_text(&value_from(j)) {
        Some(text) => text,
        None => String::new(),
    }
}

/// A member that is put behind others is found under its name, and under every
/// other name the same is found as before.
pub proof fn law_last_member_of_a_name_counts(
    ms: Members,
    name: Seq<char>,
    value: JsonTree,
    other: Seq<char>,
)
    ensures
        JsonTree::Object(ms.push((name, value))).member(name) == Some(value),
        other != name ==> JsonTree::Object(ms.push((name, value))).member(other)
            == JsonTree::Object(ms).member(other),
        JsonTree::Object(Seq::empty()).member(name) is None,
{
    assert(ms.push((name, value)).drop_last() =~= ms);
    lemma_last_index(ms, other);
}

/// A member is found under its name if none of that name stands behind it.
pub proof fn lemma_listed_member(ms: Members, i: int)
    requires
        0 <= i < ms.len(),
        forall|j: int| i < j < ms.len() ==> (#[trigger] ms[j]).0 != ms[i].0,
    ensures
        find_member(ms, ms[i].0) == Some(ms[i].1),
{
    lemma_last_index(ms, ms[i].0);
}

/// A number counts as one of 64 bits with a sign if and only if it is an integer
/// in that range.
pub proof fn law_whole_numbers_are_integers_in_range(t: JsonTree, n: i64)
    ensures
        t.whole() == Some(n) <==> t == JsonTree::Int(n as int),
        t.whole() is Some ==> t is Int,
        t matches JsonTree::Int(i) ==> (t.whole() is None <==> i < i64::MIN || i > i64::MAX),
{
}

/// Sorting keeps everything but the order of members: the items of an array stay
/// in their places, and what is neither an array nor an object stays as it is.
pub proof fn law_sorting_keeps_items_in_place(t: JsonTree, i: int)
    ensures
        !(t is Array) && !(t is Object) ==> t.sorted() == t,
        t matches JsonTree::Array(items) ==> (t.sorted() matches JsonTree::Array(out) && out.len()
            == items.len() && (0 <= i < items.len() ==> out[i] == items[i].sorted())),
        t is Object <==> t.sorted() is Object,
{
}

/// In a sorted object the names rise strictly, so no name comes twice.
pub proof fn law_sorted_names_rise(ms: Members, i: int, j: int)
    requires
        0 <= i < j < JsonTree::Object(ms).sorted()->Object_0.len(),
    ensures
        ({
            let out = JsonTree::Object(ms).sorted()->Object_0;
            text::name_less(out[i].0, out[j].0)
        }),
{
    lemma_sorted_members(ms);
}

/// Members are found in objects only, items in arrays only, and a text only in a text.
pub proof fn law_values_are_what_they_are(t: JsonTree, name: Seq<char>)
    ensures
        !(t is Object) ==> t.member(name) is None,
        t.items() is Some <==> t is Array,
        t matches JsonTree::Array(items) ==> t.items() == Some(items),
        t.text() is Some <==> t is Text,
        t matches JsonTree::Text(s) ==> t.text() == Some(s),
{
}

} // verus!
