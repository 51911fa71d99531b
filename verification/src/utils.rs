use vstd::prelude::*;

use crate::value::{
    find_key, keys_unique, kind_name, lemma_find_key, lemma_push_front_assoc, lemma_skip_step,
    lemma_split_on_len, lemma_view_entries, lemma_view_entries_push, lemma_view_entries_update,
    lemma_view_list, lemma_view_list_push, lemma_wf_entries_index, lemma_wf_list_index, split_on,
    split_string, tree_wf, view_entries, view_list, wf_entries, wf_list, Tree, Value,
};
use vstd::string::*;

verus! {

/// The mathematical model of a merge conflict: the dotted path at which the
/// merge failed and the names of the two kinds that could not be reconciled.
pub struct Conflict {
    pub path: Seq<char>,
    pub existed: Seq<char>,
    pub appended: Seq<char>,
}

/// A type mismatch found while merging two values: the dotted path at which
/// it happened and the names of the two kinds that could not be reconciled.
/// Fatal for the whole build.
#[derive(Debug, PartialEq)]
pub struct Error {
    pub path: String,
    pub existed_type: &'static str,
    pub appended_type: &'static str,
}

impl View for Error {
    type V = Conflict;

    open spec fn view(&self) -> Conflict {
        Conflict { path: self.path@, existed: self.existed_type@, appended: self.appended_type@ }
    }
}

impl Error {
    pub fn new(path: String, existed_type: &'static str, appended_type: &'static str) -> (r: Self)
        ensures
            r@ == (Conflict { path: path@, existed: existed_type@, appended: appended_type@ }),
    {
        Self { path, existed_type, appended_type }
    }

    /// The conflict, described in one line.
    pub fn message(&self) -> (r: String)
        ensures
            r@ == "merge fail, path="@ + self.path@ + ", existed type="@ + self.existed_type@
                + " appended type="@ + self.appended_type@,
    {
        let mut s = String::from_str("merge fail, path=");
        s.append(self.path.as_str());
        s.append(", existed type=");
        s.append(self.existed_type);
        s.append(" appended type=");
        s.append(self.appended_type);
        s
    }
}

/// The decimal digit `d` as a character; `d` must lie below ten.
pub open spec fn digit_char(d: int) -> char {
    if d == 0 {
        '0'
    } else if d == 1 {
        '1'
    } else if d == 2 {
        '2'
    } else if d == 3 {
        '3'
    } else if d == 4 {
        '4'
    } else if d == 5 {
        '5'
    } else if d == 6 {
        '6'
    } else if d == 7 {
        '7'
    } else if d == 8 {
        '8'
    } else {
        '9'
    }
}

/// The decimal digits of a nonnegative number, most significant first.
pub open spec fn dec_str(n: int) -> Seq<char>
    decreases n,
{
    if n < 10 {
        seq![digit_char(n)]
    } else {
        dec_str(n / 10).push(digit_char(n % 10))
    }
}

/// The sub-path of the element at index `i` of the array at `path`.
pub open spec fn array_item_path(path: Seq<char>, i: int) -> Seq<char> {
    path + ".["@ + dec_str(i) + "]"@
}

/// The sub-path of the entry named `key` of the table at `path`.
pub open spec fn table_entry_path(path: Seq<char>, key: Seq<char>) -> Seq<char> {
    path + "."@ + key
}

/// Merges two trees, last write wins: a scalar replaces a scalar of the same
/// kind, arrays merge element by element with the longer side's tail kept,
/// tables merge entry by entry with keys only in one side kept, and any other
/// pairing is a conflict at the given path.
pub open spec fn spec_merge(base: Tree, append: Tree, path: Seq<char>) -> Result<Tree, Conflict>
    decreases append, 0nat,
    via spec_merge_decreases
{
    match (base, append) {
        (Tree::String(_), Tree::String(s)) => Ok(Tree::String(s)),
        (Tree::Integer(_), Tree::Integer(x)) => Ok(Tree::Integer(x)),
        (Tree::Float(_), Tree::Float(x)) => Ok(Tree::Float(x)),
        (Tree::Boolean(_), Tree::Boolean(x)) => Ok(Tree::Boolean(x)),
        (Tree::Datetime(_), Tree::Datetime(x)) => Ok(Tree::Datetime(x)),
        (Tree::Array(bs), Tree::Array(xs)) => match spec_merge_array(bs, xs, path, 0) {
            Ok(ms) => Ok(Tree::Array(ms)),
            Err(c) => Err(c),
        },
        (Tree::Table(bs), Tree::Table(xs)) => match spec_merge_table(bs, xs, path, 0) {
            Ok(ms) => Ok(Tree::Table(ms)),
            Err(c) => Err(c),
        },
        (b, x) => Err(
            Conflict { path: path, existed: kind_name(b), appended: kind_name(x) },
        ),
    }
}

/// Element-wise merge of two arrays from index `i` on: indices present on both
/// sides merge recursively, the rest of the longer side is kept unchanged.
pub open spec fn spec_merge_array(
    bs: Seq<Tree>,
    xs: Seq<Tree>,
    path: Seq<char>,
    i: nat,
) -> Result<Seq<Tree>, Conflict>
    decreases xs, xs.len() - i,
    via spec_merge_array_decreases
{
    if i >= bs.len() && i >= xs.len() {
        Ok(Seq::empty())
    } else if i < bs.len() && i < xs.len() {
        match spec_merge(bs[i as int], xs[i as int], array_item_path(path, i as int)) {
            Ok(m) => match spec_merge_array(bs, xs, path, i + 1) {
                Ok(rest) => Ok(seq![m] + rest),
                Err(c) => Err(c),
            },
            Err(c) => Err(c),
        }
    } else if i < bs.len() {
        Ok(bs.skip(i as int))
    } else {
        Ok(xs.skip(i as int))
    }
}

/// Folds the append side's entries from index `i` on into the accumulated
/// entries: an entry whose key is present merges into it in place, the rest
/// are appended in order.
pub open spec fn spec_merge_table(
    acc: Seq<(Seq<char>, Tree)>,
    xs: Seq<(Seq<char>, Tree)>,
    path: Seq<char>,
    i: nat,
) -> Result<Seq<(Seq<char>, Tree)>, Conflict>
    decreases xs, xs.len() - i,
    via spec_merge_table_decreases
{
    if i >= xs.len() {
        Ok(acc)
    } else {
        let key = xs[i as int].0;
        let j = find_key(acc, key);
        if j >= 0 {
            match spec_merge(acc[j].1, xs[i as int].1, table_entry_path(path, key)) {
                Ok(m) => spec_merge_table(acc.update(j, (key, m)), xs, path, i + 1),
                Err(c) => Err(c),
            }
        } else {
            spec_merge_table(acc.push(xs[i as int]), xs, path, i + 1)
        }
    }
}

/// Nested single-entry tables along the given segments, with the string `v`
/// at the innermost one: the shape that one prefixed environment variable
/// denotes.
pub open spec fn nest_tables(segs: Seq<Seq<char>>, v: Seq<char>) -> Tree
    decreases segs.len(),
{
    if segs.len() == 0 {
        Tree::String(v)
    } else if segs.len() == 1 {
        Tree::Table(seq![(segs[0], Tree::String(v))])
    } else {
        Tree::Table(seq![(segs[0], nest_tables(segs.drop_first(), v))])
    }
}

/// Splits the key on underscores and builds one nested single-entry table per
/// segment, with the value as the innermost string.
#[verifier::loop_isolation(false)]
pub fn build_toml_value(key: String, value: String) -> (r: Value)
    ensures
        r@ == nest_tables(split_on(key@, '_'), value@),
{
    let ghost segs = split_on(key@, '_');
    let ghost val = value@;
    let segments = split_string(key.as_str(), '_');
    proof {
        lemma_split_on_len(key@, '_');
        assert(segments@.len() == segs.len());
        assert(forall|k: int| 0 <= k < segs.len() ==> segs[k] == segments@[k]@);
    }
    let n = segments.len();
    let mut j = n - 1;
    let mut inner: Vec<(String, Value)> = Vec::new();
    inner.push((segments[n - 1].clone(), Value::String(value)));
    proof {
        lemma_view_entries(inner@);
        assert(view_entries(inner@) =~= seq![(segs[n - 1], Tree::String(val))]);
    }
    let mut acc = Value::Table(inner);
    proof {
        assert(segs.skip(n - 1).len() == 1);
        assert(segs.skip(n - 1)[0] == segs[n - 1]);
        assert(acc@ == nest_tables(segs.skip(n - 1), val));
    }
    while j > 0
        invariant
            j <= n - 1,
            n == segs.len(),
            acc@ == nest_tables(segs.skip(j as int), val),
        decreases j,
    {
        j = j - 1;
        let ghost acc_before = acc@;
        let mut wrap: Vec<(String, Value)> = Vec::new();
        wrap.push((segments[j].clone(), acc));
        proof {
            lemma_view_entries(wrap@);
            assert(view_entries(wrap@) =~= seq![(segs[j as int], acc_before)]);
        }
        acc = Value::Table(wrap);
        proof {
            assert(segs.skip(j as int).len() > 1);
            assert(segs.skip(j as int)[0] == segs[j as int]);
            assert(segs.skip(j as int).drop_first() =~= segs.skip(j + 1));
            assert(acc@ == nest_tables(segs.skip(j as int), val));
        }
    }
    proof {
        assert(segs.skip(0) =~= segs);
    }
    acc
}

/// A single decimal digit as text.
fn digit_str(d: u64) -> (r: &'static str)
    requires
        d < 10,
    ensures
        r@ == seq![digit_char(d as int)],
{
    let s: &'static str = match d {
        0 => "0",
        1 => "1",
        2 => "2",
        3 => "3",
        4 => "4",
        5 => "5",
        6 => "6",
        7 => "7",
        8 => "8",
        _ => "9",
    };
    proof {
        reveal_strlit("0");
        reveal_strlit("1");
        reveal_strlit("2");
        reveal_strlit("3");
        reveal_strlit("4");
        reveal_strlit("5");
        reveal_strlit("6");
        reveal_strlit("7");
        reveal_strlit("8");
        reveal_strlit("9");
        assert(s@ =~= seq![digit_char(d as int)]);
    }
    s
}

/// The decimal digits of `n`, most significant first.
fn u64_to_string(n: u64) -> (r: String)
    ensures
        r@ == dec_str(n as int),
    decreases n,
{
    let d = digit_str(n % 10);
    if n < 10 {
        d.to_owned()
    } else {
        let prefix = u64_to_string(n / 10);
        let r = prefix.concat(d);
        proof {
            assert(r@ =~= dec_str(n as int / 10).push(digit_char(n as int % 10)));
        }
        r
    }
}

/// The dotted sub-path of the table entry named `key`.
fn table_child_path(path: &str, key: &String) -> (r: String)
    ensures
        r@ == table_entry_path(path@, key@),
{
    let mut s = path.to_owned();
    s.append(".");
    s.append(key.as_str());
    s
}

/// The dotted sub-path of the array element at index `i`.
fn array_child_path(path: &str, i: usize) -> (r: String)
    ensures
        r@ == array_item_path(path@, i as int),
{
    let mut s = path.to_owned();
    s.append(".[");
    let digits = u64_to_string(i as u64);
    s.append(digits.as_str());
    s.append("]");
    s
}

/// The index of the first entry with the given key, if any.
#[verifier::loop_isolation(false)]
pub(crate) fn find_entry(es: &Vec<(String, Value)>, key: &String) -> (r: Option<usize>)
    ensures
        match r {
            Some(j) => j < es@.len() && find_key(view_entries(es@), key@) == j as int,
            None => find_key(view_entries(es@), key@) == -1,
        },
{
    proof {
        lemma_view_entries(es@);
        lemma_find_key(view_entries(es@), key@);
    }
    let mut i: usize = 0;
    while i < es.len()
        invariant
            i <= es@.len(),
            forall|k: int| 0 <= k < i ==> (#[trigger] view_entries(es@)[k]).0 != key@,
        decreases es@.len() - i,
    {
        if es[i].0 == *key {
            proof {
                assert(view_entries(es@)[i as int].0 == key@);
            }
            return Some(i);
        }
        proof {
            assert(view_entries(es@)[i as int].0 == es@[i as int].0@);
        }
        i += 1;
    }
    None
}

/// A structural copy of a vector of table entries.
fn clone_entries(es: &Vec<(String, Value)>) -> (r: Vec<(String, Value)>)
    ensures
        view_entries(r@) == view_entries(es@),
{
    let mut out: Vec<(String, Value)> = Vec::new();
    let mut i: usize = 0;
    while i < es.len()
        invariant
            i <= es@.len(),
            out@.len() == i,
            forall|k: int| 0 <= k < i ==> (#[trigger] out@[k]).0@ == es@[k].0@ && out@[k].1@
                == es@[k].1@,
        decreases es@.len() - i,
    {
        let (k, v) = &es[i];
        let dup = v.duplicate();
        out.push((k.clone(), dup));
        i += 1;
    }
    proof {
        lemma_view_entries(out@);
        lemma_view_entries(es@);
        assert forall|k: int| 0 <= k < es@.len() implies view_entries(out@)[k] == view_entries(
            es@,
        )[k] by {
            assert(out@[k].0@ == es@[k].0@);
            assert(out@[k].1@ == es@[k].1@);
        }
        assert(view_entries(out@) =~= view_entries(es@));
    }
    out
}

/// Merges `append` into `base`, last write wins, as [`spec_merge`] states;
/// `path` names the location of the pair, for the conflict report.
#[verifier::loop_isolation(false)]
pub(crate) fn merge_values(base: &Value, append: &Value, path: &str) -> (r: Result<Value, Error>)
    ensures
        match r {
            Ok(v) => spec_merge(base@, append@, path@) == Ok::<Tree, Conflict>(v@),
            Err(e) => spec_merge(base@, append@, path@) == Err::<Tree, Conflict>(e@),
        },
    decreases *append,
{
    match (base, append) {
        (Value::String(_), Value::String(s)) => Ok(Value::String(s.clone())),
        (Value::Integer(_), Value::Integer(x)) => Ok(Value::Integer(*x)),
        (Value::Float(_), Value::Float(x)) => Ok(Value::Float(*x)),
        (Value::Boolean(_), Value::Boolean(x)) => Ok(Value::Boolean(*x)),
        (Value::Datetime(_), Value::Datetime(s)) => Ok(Value::Datetime(s.clone())),
        (Value::Array(bs), Value::Array(xs)) => {
            let ghost gbs = view_list(bs@);
            let ghost gxs = view_list(xs@);
            proof {
                lemma_view_list(bs@);
                lemma_view_list(xs@);
                match spec_merge_array(gbs, gxs, path@, 0) {
                    Ok(rest) => {
                        assert(Seq::<Tree>::empty() + rest =~= rest);
                    },
                    Err(c) => {},
                }
            }
            let mut out: Vec<Value> = Vec::new();
            let blen = bs.len();
            let xlen = xs.len();
            let n = if blen >= xlen {
                blen
            } else {
                xlen
            };
            let mut i: usize = 0;
            while i < n
                invariant
                    i <= n,
                    match spec_merge_array(gbs, gxs, path@, i as nat) {
                        Ok(rest) => spec_merge_array(gbs, gxs, path@, 0) == Ok::<
                            Seq<Tree>,
                            Conflict,
                        >(view_list(out@) + rest),
                        Err(c) => spec_merge_array(gbs, gxs, path@, 0) == Err::<
                            Seq<Tree>,
                            Conflict,
                        >(c),
                    },
                decreases n - i,
            {
                let ghost out_before = out@;
                if i < blen && i < xlen {
                    let child = array_child_path(path, i);
                    proof {
                        assert(decreases_to!(*append => append->Array_0));
                        assert(decreases_to!(append->Array_0 => append->Array_0@));
                        assert(decreases_to!(append->Array_0@ => append->Array_0@[i as int]));
                    }
                    match merge_values(&bs[i], &xs[i], child.as_str()) {
                        Ok(m) => {
                            proof {
                                lemma_view_list_push(out_before, m);
                            }
                            out.push(m);
                            proof {
                                match spec_merge_array(gbs, gxs, path@, (i + 1) as nat) {
                                    Ok(rest) => {
                                        lemma_push_front_assoc(
                                            view_list(out_before),
                                            m@,
                                            rest,
                                        );
                                    },
                                    Err(c) => {},
                                }
                            }
                        },
                        Err(e) => {
                            proof {
                                assert(spec_merge_array(gbs, gxs, path@, i as nat)
                                    == Err::<Seq<Tree>, Conflict>(e@));
                            }
                            return Err(e);
                        },
                    }
                } else if i < blen {
                    let dup = bs[i].duplicate();
                    proof {
                        lemma_view_list_push(out_before, dup);
                        lemma_skip_step(gbs, i as int);
                        lemma_push_front_assoc(
                            view_list(out_before),
                            dup@,
                            gbs.skip(i + 1),
                        );
                    }
                    out.push(dup);
                } else {
                    let dup = xs[i].duplicate();
                    proof {
                        lemma_view_list_push(out_before, dup);
                        lemma_skip_step(gxs, i as int);
                        lemma_push_front_assoc(
                            view_list(out_before),
                            dup@,
                            gxs.skip(i + 1),
                        );
                    }
                    out.push(dup);
                }
                i += 1;
            }
            proof {
                assert(spec_merge_array(gbs, gxs, path@, n as nat) == Ok::<Seq<Tree>, Conflict>(
                    Seq::empty(),
                ));
                assert(view_list(out@) + Seq::<Tree>::empty() =~= view_list(out@));
            }
            Ok(Value::Array(out))
        },
        (Value::Table(bs), Value::Table(xs)) => {
            let ghost gbs = view_entries(bs@);
            let ghost gxs = view_entries(xs@);
            proof {
                lemma_view_entries(bs@);
                lemma_view_entries(xs@);
            }
            let mut acc = clone_entries(bs);
            let mut i: usize = 0;
            while i < xs.len()
                invariant
                    i <= xs@.len(),
                    spec_merge_table(gbs, gxs, path@, 0) == spec_merge_table(
                        view_entries(acc@),
                        gxs,
                        path@,
                        i as nat,
                    ),
                decreases xs@.len() - i,
            {
                let ghost acc_before = acc@;
                let (key, val) = &xs[i];
                proof {
                    assert(gxs[i as int] == (key@, val@));
                }
                match find_entry(&acc, key) {
                    Some(j) => {
                        let child = table_child_path(path, key);
                        let (k2, old_val) = acc.remove(j);
                        proof {
                            assert(decreases_to!(*append => append->Table_0));
                            assert(decreases_to!(append->Table_0 => append->Table_0@));
                            assert(decreases_to!(append->Table_0@ => append->Table_0@[i as int]));
                            assert(decreases_to!(append->Table_0@[i as int] => append->Table_0@[
                                i as int
                            ].1));
                            lemma_view_entries(acc_before);
                            lemma_find_key(view_entries(acc_before), key@);
                            assert(k2@ == key@);
                            assert(old_val@ == view_entries(acc_before)[j as int].1);
                        }
                        match merge_values(&old_val, val, child.as_str()) {
                            Ok(m) => {
                                acc.insert(j, (k2, m));
                                proof {
                                    assert(acc@ =~= acc_before.update(j as int, (k2, m)));
                                    lemma_view_entries_update(acc_before, j as int, (k2, m));
                                }
                            },
                            Err(e) => {
                                proof {
                                    assert(spec_merge_table(view_entries(acc_before), gxs, path@,
                                        i as nat) == Err::<Seq<(Seq<char>, Tree)>, Conflict>(e@));
                                }
                                return Err(e);
                            },
                        }
                    },
                    None => {
                        let dup = val.duplicate();
                        let k = key.clone();
                        proof {
                            lemma_view_entries_push(acc_before, (k, dup));
                        }
                        acc.push((k, dup));
                    },
                }
                i += 1;
            }
            Ok(Value::Table(acc))
        },
        _ => {
            let conflict = Error::new(path.to_owned(), base.type_str(), append.type_str());
            Err(conflict)
        },
    }
}

/// Merges `append` into `base`, last write wins: a scalar replaces a scalar
/// of the same kind, arrays merge element by element with the longer side's
/// tail kept, tables merge entry by entry with keys only in one side kept,
/// and any other pairing is a conflict reported with the dotted `path` of the
/// pair and the two kind names.
pub fn merge_two_value(base: Value, append: Value, path: &str) -> (r: Result<Value, Error>)
    ensures
        match r {
            Ok(v) => spec_merge(base@, append@, path@) == Ok::<Tree, Conflict>(v@),
            Err(e) => spec_merge(base@, append@, path@) == Err::<Tree, Conflict>(e@),
        },
{
    merge_values(&base, &append, path)
}

/// Law: merging any well-formed tree with an identical copy of itself never
/// raises a conflict and returns an equal tree.
pub proof fn lemma_merge_idempotent(t: Tree, path: Seq<char>)
    requires
        tree_wf(t),
    ensures
        spec_merge(t, t, path) == Ok::<Tree, Conflict>(t),
    decreases t, 0nat,
{
    match t {
        Tree::Array(es) => {
            lemma_merge_array_idem(es, path, 0);
            assert(es.skip(0) =~= es);
        },
        Tree::Table(es) => {
            lemma_merge_table_idem(es, path, 0);
        },
        _ => {},
    }
}

proof fn lemma_merge_array_idem(es: Seq<Tree>, path: Seq<char>, i: nat)
    requires
        wf_list(es),
        i <= es.len(),
    ensures
        spec_merge_array(es, es, path, i) == Ok::<Seq<Tree>, Conflict>(es.skip(i as int)),
    decreases es, es.len() - i,
{
    lemma_wf_list_index(es);
    if i < es.len() {
        assert(decreases_to!(es => es[i as int]));
        lemma_merge_idempotent(es[i as int], array_item_path(path, i as int));
        lemma_merge_array_idem(es, path, i + 1);
        lemma_skip_step(es, i as int);
    } else {
        assert(es.skip(i as int) =~= Seq::<Tree>::empty());
    }
}

proof fn lemma_merge_table_idem(es: Seq<(Seq<char>, Tree)>, path: Seq<char>, i: nat)
    requires
        keys_unique(es),
        wf_entries(es),
        i <= es.len(),
    ensures
        spec_merge_table(es, es, path, i) == Ok::<Seq<(Seq<char>, Tree)>, Conflict>(es),
    decreases es, es.len() - i,
{
    lemma_wf_entries_index(es);
    if i < es.len() {
        let key = es[i as int].0;
        lemma_find_key(es, key);
        let j = find_key(es, key);
        assert(j != -1);
        assert(j == i as int);
        assert(decreases_to!(es => es[i as int]));
        assert(decreases_to!(es[i as int] => es[i as int].1));
        lemma_merge_idempotent(es[i as int].1, table_entry_path(path, key));
        assert(es.update(i as int, (key, es[i as int].1)) =~= es);
        lemma_merge_table_idem(es, path, i + 1);
    }
}

/// Law: merging two well-formed trees, when it succeeds, yields a well-formed
/// tree: every table of the result still has pairwise distinct keys.
pub proof fn lemma_merge_preserves_wf(base: Tree, append: Tree, path: Seq<char>)
    requires
        tree_wf(base),
        tree_wf(append),
        spec_merge(base, append, path) is Ok,
    ensures
        tree_wf(spec_merge(base, append, path)->Ok_0),
    decreases append, 0nat,
{
    match (base, append) {
        (Tree::Array(bs), Tree::Array(xs)) => {
            lemma_merge_array_wf(bs, xs, path, 0);
        },
        (Tree::Table(bs), Tree::Table(xs)) => {
            lemma_wf_entries_index(xs);
            lemma_merge_table_wf(bs, xs, path, 0);
        },
        _ => {},
    }
}

proof fn lemma_merge_array_wf(bs: Seq<Tree>, xs: Seq<Tree>, path: Seq<char>, i: nat)
    requires
        wf_list(bs),
        wf_list(xs),
        spec_merge_array(bs, xs, path, i) is Ok,
    ensures
        wf_list(spec_merge_array(bs, xs, path, i)->Ok_0),
    decreases xs, xs.len() - i,
{
    lemma_wf_list_index(bs);
    lemma_wf_list_index(xs);
    if i >= bs.len() && i >= xs.len() {
    } else if i < bs.len() && i < xs.len() {
        match spec_merge(bs[i as int], xs[i as int], array_item_path(path, i as int)) {
            Ok(m) => {
                assert(decreases_to!(xs => xs[i as int]));
                lemma_merge_preserves_wf(bs[i as int], xs[i as int], array_item_path(
                    path,
                    i as int,
                ));
                match spec_merge_array(bs, xs, path, i + 1) {
                    Ok(rest) => {
                        lemma_merge_array_wf(bs, xs, path, i + 1);
                        let ms = seq![m] + rest;
                        assert(spec_merge_array(bs, xs, path, i) == Ok::<Seq<Tree>, Conflict>(ms));
                        lemma_wf_list_index(rest);
                        lemma_wf_list_index(ms);
                        assert forall|k: int| 0 <= k < ms.len() implies tree_wf(
                            #[trigger] ms[k],
                        ) by {
                            if k > 0 {
                                assert(ms[k] == rest[k - 1]);
                            }
                        }
                    },
                    Err(_) => {},
                }
            },
            Err(_) => {},
        }
    } else if i < bs.len() {
        let ms = bs.skip(i as int);
        lemma_wf_list_index(ms);
        assert forall|k: int| 0 <= k < ms.len() implies tree_wf(#[trigger] ms[k]) by {
            assert(ms[k] == bs[k + i]);
        }
    } else {
        let ms = xs.skip(i as int);
        lemma_wf_list_index(ms);
        assert forall|k: int| 0 <= k < ms.len() implies tree_wf(#[trigger] ms[k]) by {
            assert(ms[k] == xs[k + i]);
        }
    }
}

proof fn lemma_merge_table_wf(
    acc: Seq<(Seq<char>, Tree)>,
    xs: Seq<(Seq<char>, Tree)>,
    path: Seq<char>,
    i: nat,
)
    requires
        keys_unique(acc),
        wf_entries(acc),
        forall|k: int| 0 <= k < xs.len() ==> tree_wf((#[trigger] xs[k]).1),
        spec_merge_table(acc, xs, path, i) is Ok,
    ensures
        keys_unique(spec_merge_table(acc, xs, path, i)->Ok_0),
        wf_entries(spec_merge_table(acc, xs, path, i)->Ok_0),
    decreases xs, xs.len() - i,
{
    lemma_wf_entries_index(acc);
    if i < xs.len() {
        let key = xs[i as int].0;
        let j = find_key(acc, key);
        lemma_find_key(acc, key);
        if j >= 0 {
            match spec_merge(acc[j].1, xs[i as int].1, table_entry_path(path, key)) {
                Ok(m) => {
                    assert(decreases_to!(xs => xs[i as int]));
                    assert(decreases_to!(xs[i as int] => xs[i as int].1));
                    lemma_merge_preserves_wf(acc[j].1, xs[i as int].1, table_entry_path(
                        path,
                        key,
                    ));
                    let acc2 = acc.update(j, (key, m));
                    assert(keys_unique(acc2)) by {
                        assert(forall|k: int| 0 <= k < acc2.len() ==> (#[trigger] acc2[k]).0
                            == acc[k].0);
                    }
                    assert(wf_entries(acc2)) by {
                        lemma_wf_entries_index(acc2);
                        assert forall|k: int| 0 <= k < acc2.len() implies tree_wf(
                            (#[trigger] acc2[k]).1,
                        ) by {
                            if k != j {
                                assert(acc2[k] == acc[k]);
                            }
                        }
                    }
                    lemma_merge_table_wf(acc2, xs, path, i + 1);
                },
                Err(_) => {},
            }
        } else {
            let acc2 = acc.push(xs[i as int]);
            assert(keys_unique(acc2)) by {
                assert forall|a: int, b: int| 0 <= a < b < acc2.len() implies (
                #[trigger] acc2[a]).0 != (#[trigger] acc2[b]).0 by {
                    if b == acc.len() {
                        assert(acc2[a] == acc[a]);
                        assert(acc2[b].0 == key);
                    } else {
                        assert(acc2[a] == acc[a]);
                        assert(acc2[b] == acc[b]);
                    }
                }
            }
            assert(wf_entries(acc2)) by {
                lemma_wf_entries_index(acc2);
                assert forall|k: int| 0 <= k < acc2.len() implies tree_wf(
                    (#[trigger] acc2[k]).1,
                ) by {
                    if k < acc.len() {
                        assert(acc2[k] == acc[k]);
                    } else {
                        assert(acc2[k] == xs[i as int]);
                    }
                }
            }
            lemma_merge_table_wf(acc2, xs, path, i + 1);
        }
    }
}

/// A tree with no nested values: a string, integer, float, boolean or
/// timestamp.
pub open spec fn is_scalar(t: Tree) -> bool {
    !(t is Array) && !(t is Table)
}

/// The value at `key` in a table's entries, if the key is present.
pub open spec fn table_value(es: Seq<(Seq<char>, Tree)>, key: Seq<char>) -> Option<Tree> {
    let j = find_key(es, key);
    if j >= 0 {
        Some(es[j].1)
    } else {
        None
    }
}

/// The array merge from index `i` on, described element by element.
proof fn lemma_merge_array_parts(bs: Seq<Tree>, xs: Seq<Tree>, path: Seq<char>, i: nat)
    requires
        i <= bs.len() || i <= xs.len(),
    ensures
        match spec_merge_array(bs, xs, path, i) {
            Ok(ms) => {
                &&& ms.len() == (if bs.len() >= xs.len() { bs.len() } else { xs.len() }) - i
                &&& forall|k: int| i <= k < bs.len() && k < xs.len()
                    ==> #[trigger] spec_merge(bs[k], xs[k], array_item_path(path, k)) == Ok::<
                    Tree,
                    Conflict,
                >(ms[k - i])
                &&& forall|k: int| i <= k && xs.len() <= k < bs.len() ==> #[trigger] ms[k - i]
                    == bs[k]
                &&& forall|k: int| i <= k && bs.len() <= k < xs.len() ==> #[trigger] ms[k - i]
                    == xs[k]
            },
            Err(_) => true,
        },
    decreases (if bs.len() >= xs.len() { bs.len() } else { xs.len() }) - i,
{
    if i >= bs.len() && i >= xs.len() {
    } else if i < bs.len() && i < xs.len() {
        match spec_merge(bs[i as int], xs[i as int], array_item_path(path, i as int)) {
            Ok(m) => {
                lemma_merge_array_parts(bs, xs, path, i + 1);
                match spec_merge_array(bs, xs, path, i + 1) {
                    Ok(rest) => {
                        let ms = seq![m] + rest;
                        assert(spec_merge_array(bs, xs, path, i) == Ok::<Seq<Tree>, Conflict>(ms));
                        assert forall|k: int| i <= k < bs.len() && k < xs.len() implies #[trigger]
                        spec_merge(bs[k], xs[k], array_item_path(path, k)) == Ok::<Tree, Conflict>(
                            ms[k - i],
                        ) by {
                            if k == i {
                                assert(ms[k - i] == m);
                            } else {
                                assert(ms[k - i] == rest[k - (i + 1)]);
                            }
                        }
                        assert forall|k: int| i <= k && xs.len() <= k < bs.len() implies #[trigger]
                        ms[k - i] == bs[k] by {
                            assert(ms[k - i] == rest[k - (i + 1)]);
                        }
                        assert forall|k: int| i <= k && bs.len() <= k < xs.len() implies #[trigger]
                        ms[k - i] == xs[k] by {
                            assert(ms[k - i] == rest[k - (i + 1)]);
                        }
                    },
                    Err(c) => {
                        assert(spec_merge_array(bs, xs, path, i) == Err::<Seq<Tree>, Conflict>(c));
                    },
                }
            },
            Err(c) => {
                assert(spec_merge_array(bs, xs, path, i) == Err::<Seq<Tree>, Conflict>(c));
            },
        }
    } else if i < bs.len() {
        assert(spec_merge_array(bs, xs, path, i) == Ok::<Seq<Tree>, Conflict>(bs.skip(i as int)));
        assert(forall|k: int| i <= k < bs.len() ==> bs.skip(i as int)[k - i] == bs[k]);
    } else {
        assert(spec_merge_array(bs, xs, path, i) == Ok::<Seq<Tree>, Conflict>(xs.skip(i as int)));
        assert(forall|k: int| i <= k < xs.len() ==> xs.skip(i as int)[k - i] == xs[k]);
    }
}

/// Law: merging arrays of length m and n, when it succeeds, yields an array
/// of length max(m, n); at each index below min(m, n) the element is the
/// merge of the two sides' elements there, and past that the longer side's
/// element is kept unchanged.
pub proof fn lemma_merge_array_length(bs: Seq<Tree>, xs: Seq<Tree>, path: Seq<char>)
    requires
        spec_merge(Tree::Array(bs), Tree::Array(xs), path) is Ok,
    ensures
        spec_merge(Tree::Array(bs), Tree::Array(xs), path)->Ok_0 matches Tree::Array(ms) && {
            &&& ms.len() == (if bs.len() >= xs.len() { bs.len() } else { xs.len() })
            &&& forall|k: int| 0 <= k < bs.len() && k < xs.len()
                ==> #[trigger] spec_merge(bs[k], xs[k], array_item_path(path, k)) == Ok::<
                Tree,
                Conflict,
            >(ms[k])
            &&& forall|k: int| xs.len() <= k < bs.len() ==> #[trigger] ms[k] == bs[k]
            &&& forall|k: int| bs.len() <= k < xs.len() ==> #[trigger] ms[k] == xs[k]
        },
{
    lemma_merge_array_parts(bs, xs, path, 0);
    match spec_merge_array(bs, xs, path, 0) {
        Ok(ms) => {
            assert forall|k: int| 0 <= k < bs.len() && k < xs.len() implies #[trigger] spec_merge(
                bs[k],
                xs[k],
                array_item_path(path, k),
            ) == Ok::<Tree, Conflict>(ms[k]) by {
                assert(spec_merge(bs[k], xs[k], array_item_path(path, k)) == Ok::<Tree, Conflict>(
                    ms[k - 0],
                ));
            }
            assert forall|k: int| xs.len() <= k < bs.len() implies #[trigger] ms[k] == bs[k] by {
                assert(ms[k - 0] == bs[k]);
            }
            assert forall|k: int| bs.len() <= k < xs.len() implies #[trigger] ms[k] == xs[k] by {
                assert(ms[k - 0] == xs[k]);
            }
        },
        Err(_) => {},
    }
}

proof fn lemma_find_key_update(
    es: Seq<(Seq<char>, Tree)>,
    j: int,
    e: (Seq<char>, Tree),
    key: Seq<char>,
)
    requires
        0 <= j < es.len(),
        e.0 == es[j].0,
    ensures
        find_key(es.update(j, e), key) == find_key(es, key),
    decreases es,
{
    let es2 = es.update(j, e);
    assert(es2.len() == es.len());
    assert(es2[0].0 == es[0].0);
    if es[0].0 == key {
    } else {
        if j == 0 {
            assert(es2.drop_first() =~= es.drop_first());
        } else {
            assert(es2.drop_first() =~= es.drop_first().update(j - 1, e));
            lemma_find_key_update(es.drop_first(), j - 1, e, key);
        }
    }
}

proof fn lemma_find_key_push(es: Seq<(Seq<char>, Tree)>, e: (Seq<char>, Tree), key: Seq<char>)
    ensures
        find_key(es.push(e), key) == if find_key(es, key) >= 0 {
            find_key(es, key)
        } else if e.0 == key {
            es.len() as int
        } else {
            -1
        },
    decreases es,
{
    let es2 = es.push(e);
    if es.len() == 0 {
        assert(es2[0] == e);
        assert(es2.drop_first() =~= Seq::<(Seq<char>, Tree)>::empty());
        assert(find_key(es, key) == -1);
        assert(find_key(es2.drop_first(), key) == -1);
        if e.0 == key {
            assert(find_key(es2, key) == 0);
        } else {
            assert(find_key(es2, key) == -1);
        }
    } else {
        assert(es2[0] == es[0]);
        if es[0].0 == key {
            assert(find_key(es, key) == 0);
            assert(find_key(es2, key) == 0);
        } else {
            assert(es2.drop_first() =~= es.drop_first().push(e));
            lemma_find_key_push(es.drop_first(), e, key);
            let r = find_key(es.drop_first(), key);
            assert(find_key(es, key) == if r < 0 { -1int } else { r + 1 });
            let r2 = find_key(es2.drop_first(), key);
            assert(find_key(es2, key) == if r2 < 0 { -1int } else { r2 + 1 });
        }
    }
}

/// How one key fares through the table fold: if an append-side entry named
/// `key` is still to be processed, the result holds the merge of the two
/// sides' values there (or the append side's value alone, if the accumulator
/// lacks the key); otherwise the accumulator's value at `key` is kept.
proof fn lemma_merge_table_at_key(
    acc: Seq<(Seq<char>, Tree)>,
    xs: Seq<(Seq<char>, Tree)>,
    path: Seq<char>,
    i: nat,
    key: Seq<char>,
)
    requires
        keys_unique(xs),
    ensures
        match spec_merge_table(acc, xs, path, i) {
            Ok(ms) => {
                let ja = find_key(acc, key);
                let jx = find_key(xs, key);
                if jx >= i {
                    if ja >= 0 {
                        &&& spec_merge(acc[ja].1, xs[jx].1, table_entry_path(path, key)) is Ok
                        &&& table_value(ms, key) == Some(
                            spec_merge(acc[ja].1, xs[jx].1, table_entry_path(path, key))->Ok_0,
                        )
                    } else {
                        table_value(ms, key) == Some(xs[jx].1)
                    }
                } else {
                    table_value(ms, key) == table_value(acc, key)
                }
            },
            Err(_) => true,
        },
    decreases xs.len() - i,
{
    lemma_find_key(xs, key);
    lemma_find_key(acc, key);
    let jx = find_key(xs, key);
    if i < xs.len() {
        let ki = xs[i as int].0;
        let vi = xs[i as int].1;
        let j = find_key(acc, ki);
        lemma_find_key(acc, ki);
        if ki == key {
            assert(jx == i as int);
        } else {
            if jx >= 0 {
                assert(xs[jx].0 == key);
                assert(jx != i as int);
            }
        }
        if j >= 0 {
            match spec_merge(acc[j].1, vi, table_entry_path(path, ki)) {
                Ok(m) => {
                    let acc2 = acc.update(j, (ki, m));
                    lemma_merge_table_at_key(acc2, xs, path, i + 1, key);
                    lemma_find_key_update(acc, j, (ki, m), key);
                    if ki == key {
                        assert(find_key(acc2, key) == j);
                        assert(acc2[j].1 == m);
                    } else {
                        let ja = find_key(acc, key);
                        if ja >= 0 {
                            assert(ja != j);
                            assert(acc2[ja] == acc[ja]);
                        }
                    }
                },
                Err(_) => {},
            }
        } else {
            let acc2 = acc.push(xs[i as int]);
            lemma_merge_table_at_key(acc2, xs, path, i + 1, key);
            lemma_find_key_push(acc, xs[i as int], key);
            if ki == key {
                assert(find_key(acc, key) == -1);
                assert(find_key(acc2, key) == acc.len() as int);
                assert(acc2[acc.len() as int].1 == vi);
            } else {
                let ja = find_key(acc, key);
                if ja >= 0 {
                    assert(acc2[ja] == acc[ja]);
                }
            }
        }
    }
}

/// Law: merging a table into an empty one returns it as it is, when its keys
/// are distinct.
pub proof fn lemma_merge_into_empty(xs: Seq<(Seq<char>, Tree)>, path: Seq<char>)
    requires
        keys_unique(xs),
    ensures
        spec_merge(Tree::Table(Seq::empty()), Tree::Table(xs), path) == Ok::<Tree, Conflict>(
            Tree::Table(xs),
        ),
{
    assert(xs.take(0) =~= Seq::<(Seq<char>, Tree)>::empty());
    lemma_merge_table_from_empty(xs, path, 0);
}

proof fn lemma_merge_table_from_empty(xs: Seq<(Seq<char>, Tree)>, path: Seq<char>, i: nat)
    requires
        keys_unique(xs),
        i <= xs.len(),
    ensures
        spec_merge_table(xs.take(i as int), xs, path, i) == Ok::<
            Seq<(Seq<char>, Tree)>,
            Conflict,
        >(xs),
    decreases xs.len() - i,
{
    let acc = xs.take(i as int);
    if i < xs.len() {
        let key = xs[i as int].0;
        lemma_find_key(acc, key);
        if find_key(acc, key) != -1 {
            let j = find_key(acc, key);
            assert(acc[j] == xs[j]);
            assert(false);
        }
        assert(acc.push(xs[i as int]) =~= xs.take(i + 1 as int));
        lemma_merge_table_from_empty(xs, path, i + 1);
    } else {
        assert(acc =~= xs);
    }
}

/// Law: when two tables both hold `key` as a scalar and their merge succeeds,
/// the merged table holds the append side's value at `key`: the last write
/// wins.
pub proof fn lemma_override_precedence(
    bs: Seq<(Seq<char>, Tree)>,
    xs: Seq<(Seq<char>, Tree)>,
    path: Seq<char>,
    key: Seq<char>,
)
    requires
        keys_unique(xs),
        spec_merge(Tree::Table(bs), Tree::Table(xs), path) is Ok,
        find_key(bs, key) >= 0,
        find_key(xs, key) >= 0,
        is_scalar(bs[find_key(bs, key)].1),
        is_scalar(xs[find_key(xs, key)].1),
    ensures
        spec_merge(Tree::Table(bs), Tree::Table(xs), path)->Ok_0 matches Tree::Table(ms)
            && table_value(ms, key) == Some(xs[find_key(xs, key)].1),
{
    lemma_merge_table_at_key(bs, xs, path, 0, key);
}

#[via_fn]
proof fn spec_merge_decreases(base: Tree, append: Tree, path: Seq<char>) {
    if append is Array {
        assert(decreases_to!(append => append->Array_0));
    }
    if append is Table {
        assert(decreases_to!(append => append->Table_0));
    }
}

#[via_fn]
proof fn spec_merge_array_decreases(bs: Seq<Tree>, xs: Seq<Tree>, path: Seq<char>, i: nat) {
    if i < xs.len() {
        assert(decreases_to!(xs => xs[i as int]));
    }
}

#[via_fn]
proof fn spec_merge_table_decreases(
    acc: Seq<(Seq<char>, Tree)>,
    xs: Seq<(Seq<char>, Tree)>,
    path: Seq<char>,
    i: nat,
) {
    if 0 <= i < xs.len() {
        assert(decreases_to!(xs => xs[i as int]));
        assert(decreases_to!(xs[i as int] => xs[i as int].1));
    }
}

} // verus!

