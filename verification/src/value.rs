use vstd::prelude::*;
use vstd::string::*;

verus! {

/// The mathematical model of a configuration value: the same shape as
/// [`Value`], with sequences in place of vectors and strings.
#[verifier::ext_equal]
pub enum Tree {
    String(Seq<char>),
    Integer(i64),
    /// The bit pattern of the floating-point number (the library never
    /// computes with it, it only carries it through).
    Float(u64),
    Boolean(bool),
    /// A timestamp, carried as its text.
    Datetime(Seq<char>),
    Array(Seq<Tree>),
    Table(Seq<(Seq<char>, Tree)>),
}

/// An in-memory semi-structured configuration value: the universal
/// representation that every source produces and every processor rewrites.
#[derive(Debug, PartialEq)]
pub enum Value {
    String(String),
    Integer(i64),
    /// The bit pattern of the floating-point number (the library never
    /// computes with it, it only carries it through).
    Float(u64),
    Boolean(bool),
    /// A timestamp, carried as its text.
    Datetime(String),
    Array(Vec<Value>),
    Table(Vec<(String, Value)>),
}

pub open spec fn view_list(es: Seq<Value>) -> Seq<Tree>
    decreases es,
{
    if es.len() == 0 {
        Seq::empty()
    } else {
        view_list(es.drop_last()).push(es.last().view())
    }
}

pub open spec fn view_entries(es: Seq<(String, Value)>) -> Seq<(Seq<char>, Tree)>
    decreases es,
{
    if es.len() == 0 {
        Seq::empty()
    } else {
        view_entries(es.drop_last()).push((es.last().0@, es.last().1.view()))
    }
}

impl View for Value {
    type V = Tree;

    open spec fn view(&self) -> Tree
        decreases self,
    {
        match self {
            Value::String(s) => Tree::String(s@),
            Value::Integer(i) => Tree::Integer(*i),
            Value::Float(bits) => Tree::Float(*bits),
            Value::Boolean(b) => Tree::Boolean(*b),
            Value::Datetime(s) => Tree::Datetime(s@),
            Value::Array(es) => Tree::Array(view_list(es@)),
            Value::Table(es) => Tree::Table(view_entries(es@)),
        }
    }
}

/// The view of a list of values is the list of their views, element by element.
pub proof fn lemma_view_list(es: Seq<Value>)
    ensures
        view_list(es).len() == es.len(),
        forall|i: int| 0 <= i < es.len() ==> view_list(es)[i] == #[trigger] es[i]@,
    decreases es,
{
    if es.len() > 0 {
        lemma_view_list(es.drop_last());
        assert(view_list(es) == view_list(es.drop_last()).push(es.last().view()));
        assert forall|i: int| 0 <= i < es.len() implies view_list(es)[i] == #[trigger] es[i]@ by {
            if i < es.len() - 1 {
                assert(es.drop_last()[i] == es[i]);
            } else {
                assert(es.last() == es[i]);
            }
        }
    }
}

/// The view of a list of table entries keeps each key and takes the view of
/// each value, entry by entry.
pub proof fn lemma_view_entries(es: Seq<(String, Value)>)
    ensures
        view_entries(es).len() == es.len(),
        forall|i: int| 0 <= i < es.len() ==> #[trigger] view_entries(es)[i] == (es[i].0@, es[i].1@),
    decreases es,
{
    if es.len() > 0 {
        lemma_view_entries(es.drop_last());
        assert(view_entries(es) == view_entries(es.drop_last()).push(
            (es.last().0@, es.last().1.view()),
        ));
        assert forall|i: int| 0 <= i < es.len() implies #[trigger] view_entries(es)[i] == (
            es[i].0@,
            es[i].1@,
        ) by {
            if i < es.len() - 1 {
                assert(es.drop_last()[i] == es[i]);
            } else {
                assert(es.last() == es[i]);
            }
        }
    }
}

pub proof fn lemma_view_list_push(es: Seq<Value>, x: Value)
    ensures
        view_list(es.push(x)) == view_list(es).push(x@),
{
    assert(es.push(x).drop_last() =~= es);
    assert(es.push(x).last() == x);
    assert(view_list(es.push(x)) == view_list(es.push(x).drop_last()).push(es.push(x).last()@));
}

pub proof fn lemma_view_entries_push(es: Seq<(String, Value)>, e: (String, Value))
    ensures
        view_entries(es.push(e)) == view_entries(es).push((e.0@, e.1@)),
{
    assert(es.push(e).drop_last() =~= es);
    assert(es.push(e).last() == e);
    assert(view_entries(es.push(e)) == view_entries(es.push(e).drop_last()).push(
        (es.push(e).last().0@, es.push(e).last().1@),
    ));
}

pub proof fn lemma_view_entries_update(es: Seq<(String, Value)>, j: int, e: (String, Value))
    requires
        0 <= j < es.len(),
    ensures
        view_entries(es.update(j, e)) == view_entries(es).update(j, (e.0@, e.1@)),
{
    lemma_view_entries(es);
    lemma_view_entries(es.update(j, e));
    assert forall|i: int| 0 <= i < es.len() implies view_entries(es.update(j, e))[i]
        == view_entries(es).update(j, (e.0@, e.1@))[i] by {
        if i == j {
            assert(es.update(j, e)[i] == e);
        } else {
            assert(es.update(j, e)[i] == es[i]);
        }
    }
    assert(view_entries(es.update(j, e)) =~= view_entries(es).update(j, (e.0@, e.1@)));
}

/// Prepending one element and then a rest is the same as pushing the element
/// and appending the rest.
pub proof fn lemma_push_front_assoc<T>(v: Seq<T>, a: T, r: Seq<T>)
    ensures
        v + (seq![a] + r) == v.push(a) + r,
{
    assert(v + (seq![a] + r) =~= v.push(a) + r);
}

/// A suffix splits off its first element.
pub proof fn lemma_skip_step<T>(s: Seq<T>, i: int)
    requires
        0 <= i < s.len(),
    ensures
        s.skip(i) == seq![s[i]] + s.skip(i + 1),
{
    assert(s.skip(i) =~= seq![s[i]] + s.skip(i + 1));
}

/// The index of the first entry with the given key, or -1 if no entry has it.
pub open spec fn find_key(es: Seq<(Seq<char>, Tree)>, key: Seq<char>) -> int
    decreases es,
{
    if es.len() == 0 {
        -1
    } else if es.first().0 == key {
        0
    } else {
        let rest = find_key(es.drop_first(), key);
        if rest < 0 {
            -1
        } else {
            rest + 1
        }
    }
}

/// `find_key` either fails, or returns the first index whose entry holds the key.
pub proof fn lemma_find_key(es: Seq<(Seq<char>, Tree)>, key: Seq<char>)
    ensures
        find_key(es, key) == -1 ==> forall|i: int| 0 <= i < es.len() ==> (#[trigger] es[i]).0 != key,
        find_key(es, key) != -1 ==> {
            let j = find_key(es, key);
            &&& 0 <= j < es.len()
            &&& es[j].0 == key
            &&& forall|i: int| 0 <= i < j ==> (#[trigger] es[i]).0 != key
        },
    decreases es,
{
    if es.len() > 0 && es.first().0 != key {
        lemma_find_key(es.drop_first(), key);
        let rest = find_key(es.drop_first(), key);
        assert(find_key(es, key) == if rest < 0 { -1int } else { rest + 1 });
        if rest == -1 {
            assert forall|i: int| 0 <= i < es.len() implies (#[trigger] es[i]).0 != key by {
                if i > 0 {
                    assert(es.drop_first()[i - 1] == es[i]);
                }
            }
        } else {
            assert(es.drop_first()[rest] == es[rest + 1]);
            assert forall|i: int| 0 <= i < rest + 1 implies (#[trigger] es[i]).0 != key by {
                if i > 0 {
                    assert(es.drop_first()[i - 1] == es[i]);
                }
            }
        }
    }
}

/// Descends a table-rooted tree one path segment at a time; `None` if some
/// intermediate value is absent or is not a table, or the last one is absent.
pub open spec fn tree_get(t: Tree, segments: Seq<Seq<char>>) -> Option<Tree>
    decreases segments.len(),
{
    if segments.len() == 0 {
        Some(t)
    } else {
        match t {
            Tree::Table(es) => {
                let j = find_key(es, segments.first());
                if j >= 0 {
                    tree_get(es[j].1, segments.drop_first())
                } else {
                    None
                }
            },
            _ => None,
        }
    }
}

/// The index of the first occurrence of `sep`, or -1 if it does not occur.
pub open spec fn find_char(s: Seq<char>, sep: char) -> int
    decreases s,
{
    if s.len() == 0 {
        -1
    } else if s.first() == sep {
        0
    } else {
        let rest = find_char(s.drop_first(), sep);
        if rest < 0 {
            -1
        } else {
            rest + 1
        }
    }
}

pub proof fn lemma_find_char(s: Seq<char>, sep: char)
    ensures
        find_char(s, sep) == -1 ==> forall|i: int| 0 <= i < s.len() ==> s[i] != sep,
        find_char(s, sep) != -1 ==> {
            let j = find_char(s, sep);
            &&& 0 <= j < s.len()
            &&& s[j] == sep
            &&& forall|i: int| 0 <= i < j ==> s[i] != sep
        },
    decreases s,
{
    if s.len() > 0 && s.first() != sep {
        lemma_find_char(s.drop_first(), sep);
        let rest = find_char(s.drop_first(), sep);
        assert(find_char(s, sep) == if rest < 0 { -1int } else { rest + 1 });
        if rest == -1 {
            assert forall|i: int| 0 <= i < s.len() implies s[i] != sep by {
                if i > 0 {
                    assert(s.drop_first()[i - 1] == s[i]);
                }
            }
        } else {
            assert(s.drop_first()[rest] == s[rest + 1]);
            assert forall|i: int| 0 <= i < rest + 1 implies s[i] != sep by {
                if i > 0 {
                    assert(s.drop_first()[i - 1] == s[i]);
                }
            }
        }
    }
}

/// The pieces of `s` between occurrences of `sep`: one piece more than there
/// are separators, each piece possibly empty.
pub open spec fn split_on(s: Seq<char>, sep: char) -> Seq<Seq<char>>
    decreases s.len(),
    via split_on_decreases
{
    let j = find_char(s, sep);
    if j < 0 {
        seq![s]
    } else {
        seq![s.take(j)] + split_on(s.skip(j + 1), sep)
    }
}

#[via_fn]
proof fn split_on_decreases(s: Seq<char>, sep: char) {
    lemma_find_char(s, sep);
}

pub proof fn lemma_split_on_len(s: Seq<char>, sep: char)
    ensures
        split_on(s, sep).len() >= 1,
{
    let j = find_char(s, sep);
    if j >= 0 {
        lemma_find_char(s, sep);
    }
}

/// The name of a tree's variant, as the merge engine reports it in a conflict.
pub open spec fn kind_name(t: Tree) -> Seq<char> {
    match t {
        Tree::String(_) => "string"@,
        Tree::Integer(_) => "integer"@,
        Tree::Float(_) => "float"@,
        Tree::Boolean(_) => "boolean"@,
        Tree::Datetime(_) => "datetime"@,
        Tree::Array(_) => "array"@,
        Tree::Table(_) => "table"@,
    }
}

/// No two entries share a key.
pub open spec fn keys_unique(es: Seq<(Seq<char>, Tree)>) -> bool {
    forall|i: int, j: int| 0 <= i < j < es.len() ==> (#[trigger] es[i]).0 != (#[trigger] es[j]).0
}

/// Every table in the tree has pairwise distinct keys.
pub open spec fn tree_wf(t: Tree) -> bool
    decreases t,
{
    match t {
        Tree::Array(es) => wf_list(es),
        Tree::Table(es) => keys_unique(es) && wf_entries(es),
        _ => true,
    }
}

pub open spec fn wf_list(es: Seq<Tree>) -> bool
    decreases es,
{
    es.len() == 0 || (tree_wf(es.first()) && wf_list(es.drop_first()))
}

pub open spec fn wf_entries(es: Seq<(Seq<char>, Tree)>) -> bool
    decreases es,
{
    es.len() == 0 || (tree_wf(es.first().1) && wf_entries(es.drop_first()))
}

pub proof fn lemma_wf_list_index(es: Seq<Tree>)
    ensures
        wf_list(es) <==> forall|i: int| 0 <= i < es.len() ==> tree_wf(#[trigger] es[i]),
    decreases es,
{
    if es.len() > 0 {
        lemma_wf_list_index(es.drop_first());
        if wf_list(es) {
            assert forall|i: int| 0 <= i < es.len() implies tree_wf(#[trigger] es[i]) by {
                if i > 0 {
                    assert(es[i] == es.drop_first()[i - 1]);
                }
            }
        }
        if forall|i: int| 0 <= i < es.len() ==> tree_wf(#[trigger] es[i]) {
            assert forall|i: int| 0 <= i < es.drop_first().len() implies tree_wf(
                #[trigger] es.drop_first()[i],
            ) by {
                assert(es.drop_first()[i] == es[i + 1]);
            }
        }
    }
}

pub proof fn lemma_wf_entries_index(es: Seq<(Seq<char>, Tree)>)
    ensures
        wf_entries(es) <==> forall|i: int| 0 <= i < es.len() ==> tree_wf((#[trigger] es[i]).1),
    decreases es,
{
    if es.len() > 0 {
        lemma_wf_entries_index(es.drop_first());
        if wf_entries(es) {
            assert forall|i: int| 0 <= i < es.len() implies tree_wf((#[trigger] es[i]).1) by {
                if i > 0 {
                    assert(es[i] == es.drop_first()[i - 1]);
                }
            }
        }
        if forall|i: int| 0 <= i < es.len() ==> tree_wf((#[trigger] es[i]).1) {
            assert forall|i: int| 0 <= i < es.drop_first().len() implies tree_wf(
                (#[trigger] es.drop_first()[i]).1,
            ) by {
                assert(es.drop_first()[i] == es[i + 1]);
            }
        }
    }
}

impl Value {
    /// The name of this value's variant, as the merge engine reports it in a
    /// conflict.
    pub fn type_str(&self) -> (r: &'static str)
        ensures
            r@ == kind_name(self@),
    {
        match self {
            Value::String(_) => "string",
            Value::Integer(_) => "integer",
            Value::Float(_) => "float",
            Value::Boolean(_) => "boolean",
            Value::Datetime(_) => "datetime",
            Value::Array(_) => "array",
            Value::Table(_) => "table",
        }
    }

    /// A structural copy of this value.
    #[verifier::loop_isolation(false)]
    pub fn duplicate(&self) -> (r: Value)
        ensures
            r@ == self@,
        decreases self,
    {
        match self {
            Value::String(s) => Value::String(s.clone()),
            Value::Integer(i) => Value::Integer(*i),
            Value::Float(bits) => Value::Float(*bits),
            Value::Boolean(b) => Value::Boolean(*b),
            Value::Datetime(s) => Value::Datetime(s.clone()),
            Value::Array(es) => {
                let mut out: Vec<Value> = Vec::new();
                let mut i: usize = 0;
                while i < es.len()
                    invariant
                        i <= es.len(),
                        out@.len() == i,
                        forall|k: int| 0 <= k < i ==> (#[trigger] out@[k])@ == es@[k]@,
                    decreases es.len() - i,
                {
                    proof {
                        assert(decreases_to!(*self => self->Array_0));
                        assert(decreases_to!(self->Array_0 => self->Array_0@));
                        assert(decreases_to!(self->Array_0@ => self->Array_0@[i as int]));
                    }
                    let dup = es[i].duplicate();
                    out.push(dup);
                    i += 1;
                }
                proof {
                    lemma_view_list(out@);
                    lemma_view_list(es@);
                    assert forall|k: int| 0 <= k < es@.len() implies view_list(out@)[k]
                        == view_list(es@)[k] by {
                        assert(out@[k]@ == es@[k]@);
                    }
                    assert(view_list(out@) =~= view_list(es@));
                }
                Value::Array(out)
            },
            Value::Table(es) => {
                let mut out: Vec<(String, Value)> = Vec::new();
                let mut i: usize = 0;
                while i < es.len()
                    invariant
                        i <= es.len(),
                        out@.len() == i,
                        forall|k: int| 0 <= k < i ==> (#[trigger] out@[k]).0@ == es@[k].0@
                            && out@[k].1@ == es@[k].1@,
                    decreases es.len() - i,
                {
                    proof {
                        assert(decreases_to!(*self => self->Table_0));
                        assert(decreases_to!(self->Table_0 => self->Table_0@));
                        assert(decreases_to!(self->Table_0@ => self->Table_0@[i as int]));
                        assert(decreases_to!(self->Table_0@[i as int] => self->Table_0@[i as int].1));
                    }
                    let (k, v) = &es[i];
                    let dup = v.duplicate();
                    out.push((k.clone(), dup));
                    i += 1;
                }
                proof {
                    lemma_view_entries(out@);
                    lemma_view_entries(es@);
                    assert forall|k: int| 0 <= k < es@.len() implies view_entries(out@)[k]
                        == view_entries(es@)[k] by {
                        assert(out@[k].0@ == es@[k].0@);
                        assert(out@[k].1@ == es@[k].1@);
                    }
                    assert(view_entries(out@) =~= view_entries(es@));
                }
                Value::Table(out)
            },
        }
    }
}

/// The views of a vector of strings, in order.
pub open spec fn strs_view(v: Seq<String>) -> Seq<Seq<char>> {
    Seq::new(v.len(), |i: int| v[i]@)
}

/// The first occurrence of `sep` at or after `start`, if any.
#[verifier::loop_isolation(false)]
pub(crate) fn find_char_from(s: &str, n: usize, start: usize, sep: char) -> (r: Option<usize>)
    requires
        n == s@.len(),
        start <= n,
    ensures
        match r {
            Some(k) => start <= k < n && find_char(s@.skip(start as int), sep) == k - start,
            None => find_char(s@.skip(start as int), sep) == -1,
        },
{
    let ghost tail = s@.skip(start as int);
    proof {
        lemma_find_char(tail, sep);
        assert(forall|t: int| 0 <= t < tail.len() ==> tail[t] == s@[start + t]);
    }
    let mut k = start;
    while k < n
        invariant
            start <= k <= n,
            forall|t: int| 0 <= t < k - start ==> tail[t] != sep,
        decreases n - k,
    {
        if s.get_char(k) == sep {
            proof {
                assert(tail[k - start] == sep);
            }
            return Some(k);
        }
        proof {
            assert(tail[k - start] == s@[k as int]);
        }
        k += 1;
    }
    None
}

/// Splits the string on the separator: one piece more than there are
/// separators, each piece possibly empty.
#[verifier::loop_isolation(false)]
pub(crate) fn split_string(s: &str, sep: char) -> (r: Vec<String>)
    ensures
        strs_view(r@) == split_on(s@, sep),
{
    let n = s.unicode_len();
    let mut parts: Vec<String> = Vec::new();
    let mut start: usize = 0;
    proof {
        assert(s@.skip(0) =~= s@);
        assert(strs_view(Seq::empty()) =~= Seq::<Seq<char>>::empty());
        assert(Seq::<Seq<char>>::empty() + split_on(s@, sep) =~= split_on(s@, sep));
    }
    loop
        invariant
            start <= n,
            n == s@.len(),
            strs_view(parts@) + split_on(s@.skip(start as int), sep) == split_on(s@, sep),
        decreases n - start,
    {
        let ghost tail = s@.skip(start as int);
        match find_char_from(s, n, start, sep) {
            Some(k) => {
                let ghost parts_before = parts@;
                let piece = s.substring_char(start, k).to_owned();
                parts.push(piece);
                proof {
                    assert(split_on(tail, sep) == seq![tail.take(k - start)] + split_on(
                        tail.skip(k - start + 1),
                        sep,
                    ));
                    assert(tail.take(k - start) =~= s@.subrange(start as int, k as int));
                    assert(tail.skip(k - start + 1) =~= s@.skip(k + 1));
                    assert(strs_view(parts@) =~= strs_view(parts_before).push(
                        s@.subrange(start as int, k as int),
                    ));
                    assert((strs_view(parts_before).push(tail.take(k - start))) + split_on(
                        s@.skip(k + 1),
                        sep,
                    ) =~= strs_view(parts_before) + (seq![tail.take(k - start)] + split_on(
                        s@.skip(k + 1),
                        sep,
                    )));
                }
                start = k + 1;
            },
            None => {
                let ghost parts_before = parts@;
                let piece = s.substring_char(start, n).to_owned();
                parts.push(piece);
                proof {
                    assert(split_on(tail, sep) == seq![tail]);
                    assert(tail =~= s@.subrange(start as int, n as int));
                    assert(strs_view(parts@) =~= strs_view(parts_before).push(tail));
                    assert(strs_view(parts_before).push(tail) =~= strs_view(parts_before)
                        + seq![tail]);
                }
                return parts;
            },
        }
    }
}

} // verus!
