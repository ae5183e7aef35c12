//! Scoped word dictionaries: a local table of entries and an optional,
//! shared, read-only parent scope.

use crate::value::{BuiltinWord, Operation, OperationModel};
use std::rc::Rc;
use vstd::prelude::*;

verus! {

/// A dictionary entry: another word to resolve further, or an operation.
#[derive(Debug, PartialEq)]
pub enum Entry {
    Alias(String),
    Op(Operation),
}

pub enum EntryModel {
    Alias(Seq<char>),
    Op(OperationModel),
}

impl View for Entry {
    type V = EntryModel;

    open spec fn view(&self) -> EntryModel {
        match self {
            Entry::Alias(w) => EntryModel::Alias(w@),
            Entry::Op(op) => EntryModel::Op(op@),
        }
    }
}

/// One scope's entries, in order, each with its word.
pub type Table = Seq<(Seq<char>, EntryModel)>;

/// The first entry for `w` at index `i` or later.
pub open spec fn find_from(t: Table, w: Seq<char>, i: int) -> Option<EntryModel>
    decreases t.len() - i,
{
    if i < 0 || i >= t.len() {
        None
    } else if t[i].0 == w {
        Some(t[i].1)
    } else {
        find_from(t, w, i + 1)
    }
}

/// The entry for `w` in a table.
pub open spec fn find(t: Table, w: Seq<char>) -> Option<EntryModel> {
    find_from(t, w, 0)
}

/// Where following aliases inside one table ends.
pub enum Chase {
    /// An operation.
    Found(OperationModel),
    /// A word that the table lacks, to be looked up in the parent scope.
    Missing(Seq<char>),
    /// Aliases that go round in a cycle.
    Cycle,
}

/// Follows aliases from `w` inside `t`, taking at most `fuel` alias steps.
pub open spec fn chase(t: Table, w: Seq<char>, fuel: nat) -> Chase
    decreases fuel,
{
    match find(t, w) {
        None => Chase::Missing(w),
        Some(EntryModel::Op(op)) => Chase::Found(op),
        Some(EntryModel::Alias(x)) => if fuel == 0 {
            Chase::Cycle
        } else {
            chase(t, x, (fuel - 1) as nat)
        },
    }
}

/// What `w` resolves to in a chain of scopes, innermost first. Within a
/// scope, aliases are followed as long as the scope has an entry for the
/// word reached (a chain of more alias steps than the scope has entries
/// is a cycle and resolves to nothing); the first word that it lacks is
/// looked up in the parent scope.
pub open spec fn resolve(chain: Seq<Table>, w: Seq<char>) -> Option<OperationModel>
    decreases chain.len(),
{
    if chain.len() == 0 {
        None
    } else {
        match chase(chain[0], w, chain[0].len()) {
            Chase::Found(op) => Some(op),
            Chase::Missing(x) => resolve(chain.drop_first(), x),
            Chase::Cycle => None,
        }
    }
}

/// A table with `w` bound to `e`: the entry for `w` is replaced where it
/// has one, else added at the end.
pub open spec fn bind(t: Table, w: Seq<char>, e: EntryModel) -> Table {
    if exists|i: int| 0 <= i < t.len() && t[i].0 == w {
        let i = choose|i: int| 0 <= i < t.len() && t[i].0 == w && forall|j: int| 0 <= j < i ==> t[j].0 != w;
        t.update(i, (w, e))
    } else {
        t.push((w, e))
    }
}

proof fn lemma_find_push(t: Table, w: Seq<char>, e: EntryModel, x: Seq<char>, i: int)
    requires
        0 <= i <= t.len(),
        forall|j: int| 0 <= j < t.len() ==> t[j].0 != w,
    ensures
        find_from(t.push((w, e)), x, i) == if x == w { Some(e) } else { find_from(t, x, i) },
    decreases t.len() - i,
{
    let t2 = t.push((w, e));
    if i < t.len() {
        assert(t2[i] == t[i]);
        lemma_find_push(t, w, e, x, i + 1);
    } else {
        assert(t2[i] == (w, e));
        assert(find_from(t2, x, i + 1) is None);
        assert(find_from(t, x, i) is None);
    }
}

proof fn lemma_find_update(t: Table, k: int, w: Seq<char>, e: EntryModel, x: Seq<char>, i: int)
    requires
        0 <= i <= k < t.len(),
        t[k].0 == w,
        forall|j: int| 0 <= j < k ==> t[j].0 != w,
    ensures
        find_from(t.update(k, (w, e)), x, i) == if x == w { Some(e) } else { find_from(t, x, i) },
    decreases k - i,
{
    let t2 = t.update(k, (w, e));
    if i < k {
        assert(t2[i] == t[i]);
        lemma_find_update(t, k, w, e, x, i + 1);
    } else {
        assert(t2[i] == (w, e));
        if x != w {
            lemma_find_from_skip(t, t2, x, i + 1);
        }
    }
}

proof fn lemma_find_from_skip(t: Table, t2: Table, x: Seq<char>, i: int)
    requires
        0 <= i,
        t.len() == t2.len(),
        forall|j: int| i <= j < t.len() ==> t[j] == t2[j],
    ensures
        find_from(t, x, i) == find_from(t2, x, i),
    decreases t.len() - i,
{
    if i < t.len() {
        lemma_find_from_skip(t, t2, x, i + 1);
    }
}

/// Looking a word up in a table just bound gives its new entry; any other
/// word keeps its entry.
pub proof fn lemma_find_bind(t: Table, w: Seq<char>, e: EntryModel, x: Seq<char>)
    ensures
        find(bind(t, w, e), x) == if x == w { Some(e) } else { find(t, x) },
        bind(t, w, e).len() >= 1,
{
    if exists|i: int| 0 <= i < t.len() && t[i].0 == w {
        let i0 = choose|i: int| 0 <= i < t.len() && t[i].0 == w;
        lemma_first_index(t, w, 0, i0);
        let k = choose|k: int| 0 <= k < t.len() && t[k].0 == w && forall|j: int| 0 <= j < k ==> t[j].0 != w;
        lemma_find_update(t, k, w, e, x, 0);
    } else {
        lemma_find_push(t, w, e, x, 0);
    }
}

proof fn lemma_first_index(t: Table, w: Seq<char>, i: int, i0: int)
    requires
        0 <= i <= i0 < t.len(),
        t[i0].0 == w,
        forall|j: int| 0 <= j < i ==> t[j].0 != w,
    ensures
        exists|k: int| 0 <= k < t.len() && t[k].0 == w && forall|j: int| 0 <= j < k ==> t[j].0 != w,
    decreases i0 - i,
{
    if t[i].0 != w {
        lemma_first_index(t, w, i + 1, i0);
    }
}

/// An alias bound in a scope to a word that neither it nor its parent
/// binds, but its grandparent binds to an operation, resolves to that
/// operation.
pub proof fn lemma_alias_through_grandparent(
    child: Table,
    parent: Table,
    grandparent: Table,
    outer: Seq<Table>,
    alias: Seq<char>,
    target: Seq<char>,
    op: OperationModel,
)
    requires
        alias != target,
        find(child, target) is None,
        find(parent, target) is None,
        find(grandparent, target) == Some(EntryModel::Op(op)),
    ensures
        resolve(
            seq![bind(child, alias, EntryModel::Alias(target)), parent, grandparent] + outer,
            alias,
        ) == Some(op),
{
    let c = bind(child, alias, EntryModel::Alias(target));
    lemma_find_bind(child, alias, EntryModel::Alias(target), alias);
    lemma_find_bind(child, alias, EntryModel::Alias(target), target);
    let chain = seq![c, parent, grandparent] + outer;
    assert(chain[0] == c);
    assert(chase(c, target, (c.len() - 1) as nat) == Chase::Missing(target));
    assert(chase(c, alias, c.len()) == Chase::Missing(target));
    let rest = chain.drop_first();
    assert(rest =~= seq![parent, grandparent] + outer);
    assert(rest[0] == parent);
    assert(chase(parent, target, parent.len()) == Chase::Missing(target));
    let rest2 = rest.drop_first();
    assert(rest2 =~= seq![grandparent] + outer);
    assert(rest2[0] == grandparent);
    assert(chase(grandparent, target, grandparent.len()) == Chase::Found(op));
    assert(resolve(rest2, target) == Some(op));
    assert(resolve(rest, target) == Some(op));
}

/// The builtin words, each bound to its primitive.
pub open spec fn builtin_table() -> Table {
    seq![
        ("apply"@, EntryModel::Op(OperationModel::Builtin(BuiltinWord::Apply))),
        ("add"@, EntryModel::Op(OperationModel::Builtin(BuiltinWord::Add))),
        ("alias"@, EntryModel::Op(OperationModel::Builtin(BuiltinWord::Alias))),
        ("def"@, EntryModel::Op(OperationModel::Builtin(BuiltinWord::Def))),
        ("div"@, EntryModel::Op(OperationModel::Builtin(BuiltinWord::Div))),
        ("dup"@, EntryModel::Op(OperationModel::Builtin(BuiltinWord::Duplicate))),
        ("fold"@, EntryModel::Op(OperationModel::Builtin(BuiltinWord::Fold))),
        ("fold1"@, EntryModel::Op(OperationModel::Builtin(BuiltinWord::Fold1))),
        ("len"@, EntryModel::Op(OperationModel::Builtin(BuiltinWord::Length))),
        ("map"@, EntryModel::Op(OperationModel::Builtin(BuiltinWord::MapEach))),
        ("filter"@, EntryModel::Op(OperationModel::Builtin(BuiltinWord::Filter))),
        ("mul"@, EntryModel::Op(OperationModel::Builtin(BuiltinWord::Mul))),
        ("over"@, EntryModel::Op(OperationModel::Builtin(BuiltinWord::Over))),
        ("pop"@, EntryModel::Op(OperationModel::Builtin(BuiltinWord::Pop))),
        ("print"@, EntryModel::Op(OperationModel::Builtin(BuiltinWord::Print))),
        ("dump"@, EntryModel::Op(OperationModel::Builtin(BuiltinWord::Dump))),
        ("repeat"@, EntryModel::Op(OperationModel::Builtin(BuiltinWord::Repeat))),
        ("roll3"@, EntryModel::Op(OperationModel::Builtin(BuiltinWord::Roll3))),
        ("stdin"@, EntryModel::Op(OperationModel::Builtin(BuiltinWord::Stdin))),
        ("sub"@, EntryModel::Op(OperationModel::Builtin(BuiltinWord::Sub))),
        ("swap"@, EntryModel::Op(OperationModel::Builtin(BuiltinWord::Swap))),
        ("arg"@, EntryModel::Op(OperationModel::Builtin(BuiltinWord::Arg))),
        ("min"@, EntryModel::Op(OperationModel::Builtin(BuiltinWord::Min))),
        ("max"@, EntryModel::Op(OperationModel::Builtin(BuiltinWord::Max))),
        ("cmp"@, EntryModel::Op(OperationModel::Builtin(BuiltinWord::Cmp))),
        ("if"@, EntryModel::Op(OperationModel::Builtin(BuiltinWord::If))),
        ("mod"@, EntryModel::Op(OperationModel::Builtin(BuiltinWord::Mod))),
        ("sqrt"@, EntryModel::Op(OperationModel::Builtin(BuiltinWord::Sqrt))),
        ("pow"@, EntryModel::Op(OperationModel::Builtin(BuiltinWord::Pow))),
        ("exp"@, EntryModel::Op(OperationModel::Builtin(BuiltinWord::Exp))),
        ("log"@, EntryModel::Op(OperationModel::Builtin(BuiltinWord::Log))),
        ("ln"@, EntryModel::Op(OperationModel::Builtin(BuiltinWord::Ln))),
        ("sin"@, EntryModel::Op(OperationModel::Builtin(BuiltinWord::Sin))),
        ("cos"@, EntryModel::Op(OperationModel::Builtin(BuiltinWord::Cos))),
        ("tan"@, EntryModel::Op(OperationModel::Builtin(BuiltinWord::Tan))),
        ("asin"@, EntryModel::Op(OperationModel::Builtin(BuiltinWord::Asin))),
        ("acos"@, EntryModel::Op(OperationModel::Builtin(BuiltinWord::Acos))),
        ("atan"@, EntryModel::Op(OperationModel::Builtin(BuiltinWord::Atan))),
    ]
}

fn push_builtin(entries: &mut Vec<(String, Entry)>, word: &str, b: BuiltinWord)
    ensures
        table_of(final(entries)@) == table_of(old(entries)@).push(
            (word@, EntryModel::Op(OperationModel::Builtin(b))),
        ),
{
    let ghost t = table_of(entries@);
    entries.push((word.to_owned(), Entry::Op(Operation::Builtin(b))));
    assert(table_of(entries@) =~= t.push((word@, EntryModel::Op(OperationModel::Builtin(b)))));
}

/// A listing of words: each name with the aliases that lead to it.
pub type Listing = Seq<(String, Vec<String>)>;

pub open spec fn has_name(r: Listing, n: Seq<char>) -> bool {
    exists|i: int| 0 <= i < r.len() && (#[trigger] r[i]).0@ == n
}

pub open spec fn has_alias(r: Listing, n: Seq<char>, a: Seq<char>) -> bool {
    exists|i: int, j: int| 0 <= i < r.len() && (#[trigger] r[i]).0@ == n && 0 <= j < r[i].1@.len() && (#[trigger] r[i].1@[j])@ == a
}

/// Where following aliases from `w` inside `t` ends: at a word bound to an
/// operation, at a word that `t` lacks, or, after `fuel` alias steps, in a
/// cycle at the word reached.
pub enum ChaseEnd {
    At(Seq<char>),
    Missing(Seq<char>),
    Cycle(Seq<char>),
}

pub open spec fn chase_end(t: Table, w: Seq<char>, fuel: nat) -> ChaseEnd
    decreases fuel,
{
    match find(t, w) {
        None => ChaseEnd::Missing(w),
        Some(EntryModel::Op(_)) => ChaseEnd::At(w),
        Some(EntryModel::Alias(x)) => if fuel == 0 {
            ChaseEnd::Cycle(w)
        } else {
            chase_end(t, x, (fuel - 1) as nat)
        },
    }
}

/// The name at which looking up `w` in a chain of scopes ends: the word
/// bound to the operation it resolves to, or, where it resolves to
/// nothing, the last word reached. It follows aliases as `resolve` does.
pub open spec fn end_name(chain: Seq<Table>, w: Seq<char>) -> Seq<char>
    decreases chain.len(),
{
    if chain.len() == 0 {
        w
    } else {
        match chase_end(chain[0], w, chain[0].len()) {
            ChaseEnd::At(n) => n,
            ChaseEnd::Cycle(n) => n,
            ChaseEnd::Missing(x) => end_name(chain.drop_first(), x),
        }
    }
}

/// An entry of the first scope of `scopes` is listed: a word bound to an
/// operation under its own name, an alias among the aliases of the name
/// its chain ends at.
pub open spec fn entry_listed(r: Listing, e: (Seq<char>, EntryModel), scopes: Seq<Table>) -> bool {
    match e.1 {
        EntryModel::Op(_) => has_name(r, e.0),
        EntryModel::Alias(t) => has_alias(r, end_name(scopes, t), e.0),
    }
}

/// Some scope binds `n` to an operation or has an alias whose chain ends
/// at `n`.
pub open spec fn names_origin(chain: Seq<Table>, n: Seq<char>) -> bool {
    exists|d: int, j: int|
        0 <= d < chain.len() && 0 <= j < chain[d].len() && (((#[trigger] chain[d][j]).0 == n && chain[d][j].1 is Op) || (
        chain[d][j].1 is Alias && end_name(chain.subrange(d, chain.len() as int), chain[d][j].1->Alias_0) == n))
}

/// Some scope has `a` as an alias whose chain ends at `n`.
pub open spec fn alias_origin(chain: Seq<Table>, n: Seq<char>, a: Seq<char>) -> bool {
    exists|d: int, j: int|
        0 <= d < chain.len() && 0 <= j < chain[d].len() && (#[trigger] chain[d][j]).0 == a && chain[d][j].1 is Alias
            && end_name(chain.subrange(d, chain.len() as int), chain[d][j].1->Alias_0) == n
}

/// Each name once, every entry of every scope listed, and nothing listed
/// that no entry gives.
pub open spec fn lists_chain(r: Listing, chain: Seq<Table>) -> bool {
    &&& forall|i: int, j: int| 0 <= i < j < r.len() ==> r[i].0@ != r[j].0@
    &&& forall|d: int, j: int|
        0 <= d < chain.len() && 0 <= j < chain[d].len() ==> entry_listed(r, #[trigger] chain[d][j], chain.subrange(d, chain.len() as int))
    &&& forall|i: int| 0 <= i < r.len() ==> names_origin(chain, (#[trigger] r[i]).0@)
    &&& forall|i: int, j: int| 0 <= i < r.len() && 0 <= j < r[i].1@.len() ==> alias_origin(chain, r[i].0@, (#[trigger] r[i].1@[j])@)
}

pub open spec fn unique_names(r: Listing) -> bool {
    forall|i: int, j: int| 0 <= i < j < r.len() ==> r[i].0@ != r[j].0@
}

pub open spec fn listing_sound(r: Listing, chain: Seq<Table>) -> bool {
    &&& forall|i: int| 0 <= i < r.len() ==> names_origin(chain, (#[trigger] r[i]).0@)
    &&& forall|i: int, j: int| 0 <= i < r.len() && 0 <= j < r[i].1@.len() ==> alias_origin(chain, r[i].0@, (#[trigger] r[i].1@[j])@)
}

/// Everything listed in `a` is listed in `b`.
pub open spec fn listing_grows(a: Listing, b: Listing) -> bool {
    &&& forall|n: Seq<char>| has_name(a, n) ==> has_name(b, n)
    &&& forall|n: Seq<char>, x: Seq<char>| has_alias(a, n, x) ==> has_alias(b, n, x)
}

fn listing_position(out: &Vec<(String, Vec<String>)>, n: &String) -> (r: Option<usize>)
    ensures
        r matches Some(i) ==> i < out@.len() && out@[i as int].0@ == n@,
        r is None ==> forall|i: int| 0 <= i < out@.len() ==> out@[i].0@ != n@,
{
    let mut i: usize = 0;
    while i < out.len()
        invariant
            i <= out@.len(),
            forall|j: int| 0 <= j < i ==> out@[j].0@ != n@,
        decreases out@.len() - i,
    {
        if out[i].0 == *n {
            return Some(i);
        }
        i += 1;
    }
    None
}

/// Lists `n`, if it is not listed yet.
fn list_name(out: &mut Vec<(String, Vec<String>)>, n: &String, Ghost(chain): Ghost<Seq<Table>>)
    requires
        unique_names(old(out)@),
        listing_sound(old(out)@, chain),
        names_origin(chain, n@),
    ensures
        unique_names(final(out)@),
        listing_sound(final(out)@, chain),
        listing_grows(old(out)@, final(out)@),
        has_name(final(out)@, n@),
{
    match listing_position(out, n) {
        Some(i) => {
            assert(out@[i as int].0@ == n@);
        },
        None => {
            let ghost o = out@;
            let l: Vec<String> = Vec::new();
            out.push((n.clone(), l));
            let ghost r = out@;
            assert(r[o.len() as int].0@ == n@);
            assert forall|m: Seq<char>| has_name(o, m) implies has_name(r, m) by {
                let i = choose|i: int| 0 <= i < o.len() && (#[trigger] o[i]).0@ == m;
                assert(r[i] == o[i]);
            }
            assert forall|m: Seq<char>, x: Seq<char>| has_alias(o, m, x) implies has_alias(r, m, x) by {
                let (i, j) = choose|i: int, j: int| 0 <= i < o.len() && (#[trigger] o[i]).0@ == m && 0 <= j < o[i].1@.len() && (#[trigger] o[i].1@[j])@ == x;
                assert(r[i] == o[i]);
            }
            assert forall|i: int| 0 <= i < r.len() implies names_origin(chain, (#[trigger] r[i]).0@) by {
                if i < o.len() {
                    assert(r[i] == o[i]);
                }
            }
            assert forall|i: int, j: int| 0 <= i < r.len() && 0 <= j < r[i].1@.len() implies alias_origin(chain, r[i].0@, (#[trigger] r[i].1@[j])@) by {
                assert(i < o.len());
                assert(r[i] == o[i]);
            }
        },
    }
}

/// Lists `a` among the aliases of `n`.
fn list_alias(out: &mut Vec<(String, Vec<String>)>, n: &String, a: &String, Ghost(chain): Ghost<Seq<Table>>)
    requires
        unique_names(old(out)@),
        listing_sound(old(out)@, chain),
        names_origin(chain, n@),
        alias_origin(chain, n@, a@),
    ensures
        unique_names(final(out)@),
        listing_sound(final(out)@, chain),
        listing_grows(old(out)@, final(out)@),
        has_alias(final(out)@, n@, a@),
{
    let ghost o = out@;
    match listing_position(out, n) {
        Some(i) => {
            let mut l = crate::value::copy_words(&out[i].1);
            let ghost l0 = out@[i as int].1@;
            let ghost lc = l@;
            l.push(a.clone());
            let ghost ln = l@;
            assert(lc.len() == l0.len()) by {
                assert(crate::value::words_model(lc).len() == crate::value::words_model(l0).len());
            }
            assert(forall|j: int| 0 <= j < l0.len() ==> (#[trigger] ln[j])@ == l0[j]@) by {
                assert forall|j: int| 0 <= j < l0.len() implies (#[trigger] ln[j])@ == l0[j]@ by {
                    assert(ln[j] == lc[j]);
                    assert(crate::value::words_model(lc)[j] == crate::value::words_model(l0)[j]);
                }
            }
            out.set(i, (n.clone(), l));
            let ghost r = out@;
            assert(r[i as int].1@[l0.len() as int]@ == a@);
            assert forall|m: Seq<char>| has_name(o, m) implies has_name(r, m) by {
                let k = choose|k: int| 0 <= k < o.len() && (#[trigger] o[k]).0@ == m;
                assert(r[k].0@ == o[k].0@);
            }
            assert forall|m: Seq<char>, x: Seq<char>| has_alias(o, m, x) implies has_alias(r, m, x) by {
                let (k, j) = choose|k: int, j: int| 0 <= k < o.len() && (#[trigger] o[k]).0@ == m && 0 <= j < o[k].1@.len() && (#[trigger] o[k].1@[j])@ == x;
                if k == i {
                    assert(r[k].1@[j]@ == x);
                } else {
                    assert(r[k] == o[k]);
                }
            }
            assert forall|k: int| 0 <= k < r.len() implies names_origin(chain, (#[trigger] r[k]).0@) by {
                assert(r[k].0@ == o[k].0@);
            }
            assert forall|k: int, j: int| 0 <= k < r.len() && 0 <= j < r[k].1@.len() implies alias_origin(chain, r[k].0@, (#[trigger] r[k].1@[j])@) by {
                if k == i {
                    if j < l0.len() {
                        assert(r[k].1@[j]@ == o[k].1@[j]@);
                    }
                } else {
                    assert(r[k] == o[k]);
                }
            }
            assert forall|k: int, j: int| 0 <= k < j < r.len() implies r[k].0@ != r[j].0@ by {
                assert(r[k].0@ == o[k].0@);
                assert(r[j].0@ == o[j].0@);
            }
        },
        None => {
            let mut l: Vec<String> = Vec::new();
            l.push(a.clone());
            out.push((n.clone(), l));
            let ghost r = out@;
            assert(r[o.len() as int].1@[0]@ == a@);
            assert forall|m: Seq<char>| has_name(o, m) implies has_name(r, m) by {
                let i = choose|i: int| 0 <= i < o.len() && (#[trigger] o[i]).0@ == m;
                assert(r[i] == o[i]);
            }
            assert forall|m: Seq<char>, x: Seq<char>| has_alias(o, m, x) implies has_alias(r, m, x) by {
                let (i, j) = choose|i: int, j: int| 0 <= i < o.len() && (#[trigger] o[i]).0@ == m && 0 <= j < o[i].1@.len() && (#[trigger] o[i].1@[j])@ == x;
                assert(r[i] == o[i]);
            }
            assert forall|i: int| 0 <= i < r.len() implies names_origin(chain, (#[trigger] r[i]).0@) by {
                if i < o.len() {
                    assert(r[i] == o[i]);
                }
            }
            assert forall|i: int, j: int| 0 <= i < r.len() && 0 <= j < r[i].1@.len() implies alias_origin(chain, r[i].0@, (#[trigger] r[i].1@[j])@) by {
                if i < o.len() {
                    assert(r[i] == o[i]);
                }
            }
        },
    }
}

proof fn lemma_listed_grows(a: Listing, b: Listing, e: (Seq<char>, EntryModel), scopes: Seq<Table>)
    requires
        entry_listed(a, e, scopes),
        listing_grows(a, b),
    ensures
        entry_listed(b, e, scopes),
{
}

proof fn lemma_find_absent(t: Table, w: Seq<char>, i: int)
    requires
        0 <= i,
        forall|j: int| i <= j < t.len() ==> (#[trigger] t[j]).0 != w,
    ensures
        find_from(t, w, i) is None,
    decreases t.len() - i,
{
    if i < t.len() {
        lemma_find_absent(t, w, i + 1);
    }
}

/// In the builtin scope alone, `add` and `div` are their builtins, and no
/// word that starts with `-` or a digit resolves.
pub proof fn lemma_builtin_scope(w: Seq<char>)
    ensures
        resolve(seq![builtin_table()], "add"@) == Some(OperationModel::Builtin(BuiltinWord::Add)),
        resolve(seq![builtin_table()], "div"@) == Some(OperationModel::Builtin(BuiltinWord::Div)),
        w.len() > 0 && (w[0] == '-' || ('0' <= w[0] && w[0] <= '9')) ==> resolve(seq![builtin_table()], w) is None,
{
    reveal_strlit("apply");
    reveal_strlit("add");
    reveal_strlit("alias");
    reveal_strlit("def");
    reveal_strlit("div");
    reveal_strlit("dup");
    reveal_strlit("fold");
    reveal_strlit("fold1");
    reveal_strlit("len");
    reveal_strlit("map");
    reveal_strlit("filter");
    reveal_strlit("mul");
    reveal_strlit("over");
    reveal_strlit("pop");
    reveal_strlit("print");
    reveal_strlit("dump");
    reveal_strlit("repeat");
    reveal_strlit("roll3");
    reveal_strlit("stdin");
    reveal_strlit("sub");
    reveal_strlit("swap");
    reveal_strlit("arg");
    reveal_strlit("min");
    reveal_strlit("max");
    reveal_strlit("cmp");
    reveal_strlit("if");
    reveal_strlit("mod");
    reveal_strlit("sqrt");
    reveal_strlit("pow");
    reveal_strlit("exp");
    reveal_strlit("log");
    reveal_strlit("ln");
    reveal_strlit("sin");
    reveal_strlit("cos");
    reveal_strlit("tan");
    reveal_strlit("asin");
    reveal_strlit("acos");
    reveal_strlit("atan");
    let t = builtin_table();
    let c = seq![t];
    assert(c.drop_first() =~= Seq::<Table>::empty());
    assert(t[0].0.len() != "add"@.len());
    assert(find_from(t, "add"@, 1) == Some(EntryModel::Op(OperationModel::Builtin(BuiltinWord::Add))));
    assert(find(t, "add"@) == Some(EntryModel::Op(OperationModel::Builtin(BuiltinWord::Add))));
    assert(find_from(t, "div"@, 4) == Some(EntryModel::Op(OperationModel::Builtin(BuiltinWord::Div))));
    assert(t[3].0[1] != "div"@[1]);
    assert(find_from(t, "div"@, 3) == find_from(t, "div"@, 4));
    assert(t[2].0 != "div"@);
    assert(find_from(t, "div"@, 2) == find_from(t, "div"@, 3));
    assert(t[1].0 != "div"@);
    assert(find_from(t, "div"@, 1) == find_from(t, "div"@, 2));
    assert(t[0].0.len() != "div"@.len());
    assert(find_from(t, "div"@, 0) == find_from(t, "div"@, 1));
    assert(find(t, "div"@) == Some(EntryModel::Op(OperationModel::Builtin(BuiltinWord::Div))));
    if w.len() > 0 && (w[0] == '-' || ('0' <= w[0] && w[0] <= '9')) {
    assert(t[0].0[0] == 'a');
    assert(t[1].0[0] == 'a');
    assert(t[2].0[0] == 'a');
    assert(t[3].0[0] == 'd');
    assert(t[4].0[0] == 'd');
    assert(t[5].0[0] == 'd');
    assert(t[6].0[0] == 'f');
    assert(t[7].0[0] == 'f');
    assert(t[8].0[0] == 'l');
    assert(t[9].0[0] == 'm');
    assert(t[10].0[0] == 'f');
    assert(t[11].0[0] == 'm');
    assert(t[12].0[0] == 'o');
    assert(t[13].0[0] == 'p');
    assert(t[14].0[0] == 'p');
    assert(t[15].0[0] == 'd');
    assert(t[16].0[0] == 'r');
    assert(t[17].0[0] == 'r');
    assert(t[18].0[0] == 's');
    assert(t[19].0[0] == 's');
    assert(t[20].0[0] == 's');
    assert(t[21].0[0] == 'a');
    assert(t[22].0[0] == 'm');
    assert(t[23].0[0] == 'm');
    assert(t[24].0[0] == 'c');
    assert(t[25].0[0] == 'i');
    assert(t[26].0[0] == 'm');
    assert(t[27].0[0] == 's');
    assert(t[28].0[0] == 'p');
    assert(t[29].0[0] == 'e');
    assert(t[30].0[0] == 'l');
    assert(t[31].0[0] == 'l');
    assert(t[32].0[0] == 's');
    assert(t[33].0[0] == 'c');
    assert(t[34].0[0] == 't');
    assert(t[35].0[0] == 'a');
    assert(t[36].0[0] == 'a');
    assert(t[37].0[0] == 'a');
        assert forall|j: int| 0 <= j < t.len() implies (#[trigger] t[j]).0 != w by {
            assert(t[j].0[0] != w[0]);
        }
        lemma_find_absent(t, w, 0);
        assert(chase(t, w, t.len()) == Chase::Missing(w));
        assert(resolve(c, w) == resolve(c.drop_first(), w));
    }
}

/// A scope of word bindings.
pub struct Dictionary {
    entries: Vec<(String, Entry)>,
    parent: Option<Rc<Dictionary>>,
}

pub open spec fn table_of(entries: Seq<(String, Entry)>) -> Table {
    Seq::new(entries.len(), |i: int| (entries[i].0@, entries[i].1@))
}

impl Dictionary {
    /// The tables of this scope and its ancestors, innermost first.
    pub closed spec fn chain(&self) -> Seq<Table>
        decreases self,
    {
        match &self.parent {
            None => seq![table_of(self.entries@)],
            Some(p) => seq![table_of(self.entries@)] + p.chain(),
        }
    }

    pub(crate) proof fn lemma_chain_nonempty(&self)
        ensures
            self.chain().len() >= 1,
    {
    }

    /// An empty scope without parent.
    pub fn new() -> (r: Dictionary)
        ensures
            r.chain() == seq![Seq::<(Seq<char>, EntryModel)>::empty()],
    {
        let r = Dictionary { entries: Vec::new(), parent: None };
        assert(table_of(r.entries@) =~= Seq::<(Seq<char>, EntryModel)>::empty());
        r
    }

    /// An empty scope whose parent is `parent`, shared.
    pub fn child_of(parent: &Rc<Dictionary>) -> (r: Dictionary)
        ensures
            r.chain() == seq![Seq::<(Seq<char>, EntryModel)>::empty()] + parent.chain(),
    {
        let r = Dictionary { entries: Vec::new(), parent: Some(Rc::clone(parent)) };
        assert(table_of(r.entries@) =~= Seq::<(Seq<char>, EntryModel)>::empty());
        r
    }

    /// An empty scope whose parent is a copy of `dict`.
    pub fn with_parent(dict: &Dictionary) -> (r: Dictionary)
        ensures
            r.chain() == seq![Seq::<(Seq<char>, EntryModel)>::empty()] + dict.chain(),
    {
        let p = Rc::new(dict.copy());
        Dictionary::child_of(&p)
    }

    /// A copy of this scope, sharing its parent.
    pub fn copy(&self) -> (r: Dictionary)
        ensures
            r.chain() == self.chain(),
    {
        let mut entries: Vec<(String, Entry)> = Vec::new();
        let mut i: usize = 0;
        while i < self.entries.len()
            invariant
                i <= self.entries@.len(),
                entries@.len() == i,
                table_of(entries@) == table_of(self.entries@).take(i as int),
            decreases self.entries@.len() - i,
        {
            let (w, e) = &self.entries[i];
            let e2 = match e {
                Entry::Alias(x) => Entry::Alias(x.clone()),
                Entry::Op(op) => Entry::Op(op.copy()),
            };
            let ghost before = entries@;
            let w2 = w.clone();
            assert(w2@ == self.entries@[i as int].0@);
            assert(e2@ == self.entries@[i as int].1@);
            entries.push((w2, e2));
            i += 1;
            assert forall|k: int| 0 <= k < i implies #[trigger] table_of(entries@)[k] == table_of(self.entries@)[k] by {
                if k < i - 1 {
                    assert(entries@[k] == before[k]);
                    assert(table_of(before)[k] == table_of(self.entries@).take(i - 1)[k]);
                }
            }
            assert(table_of(entries@) =~= table_of(self.entries@).take(i as int));
        }
        assert(table_of(entries@) =~= table_of(self.entries@));
        let parent = match &self.parent {
            Some(p) => Some(Rc::clone(p)),
            None => None,
        };
        Dictionary { entries, parent }
    }

    /// The index of the first entry for `w` in this scope.
    fn position(&self, w: &String) -> (r: Option<usize>)
        ensures
            match r {
                Some(i) => i < self.entries@.len() && self.entries@[i as int].0@ == w@
                    && forall|j: int| 0 <= j < i ==> self.entries@[j].0@ != w@,
                None => forall|j: int| 0 <= j < self.entries@.len() ==> self.entries@[j].0@ != w@,
            },
            r matches Some(i) ==> find(table_of(self.entries@), w@) == Some(self.entries@[i as int].1@),
            r is None ==> find(table_of(self.entries@), w@) is None,
    {
        let ghost t = table_of(self.entries@);
        let mut i: usize = 0;
        while i < self.entries.len()
            invariant
                t == table_of(self.entries@),
                i <= self.entries@.len(),
                forall|j: int| 0 <= j < i ==> self.entries@[j].0@ != w@,
                find(t, w@) == find_from(t, w@, i as int),
            decreases self.entries@.len() - i,
        {
            if self.entries[i].0 == *w {
                return Some(i);
            }
            i += 1;
        }
        None
    }

    /// Binds `word` in this scope, replacing its entry where it has one.
    pub(crate) fn put(&mut self, word: String, e: Entry)
        ensures
            final(self).chain() == old(self).chain().update(0, bind(old(self).chain()[0], word@, e@)),
    {
        let ghost t = table_of(self.entries@);
        let ghost w = word@;
        let ghost em = e@;
        match self.position(&word) {
            Some(i) => {
                proof {
                    let k = choose|k: int| 0 <= k < t.len() && t[k].0 == w && forall|j: int| 0 <= j < k ==> t[j].0 != w;
                    assert(t[i as int].0 == w);
                    assert(0 <= k < t.len() && t[k].0 == w);
                    if k < i {
                        assert(t[k].0 != w);
                    }
                    if k > i {
                        assert(t[i as int].0 != w);
                    }
                }
                self.entries.set(i, (word, e));
                assert(table_of(self.entries@) =~= t.update(i as int, (w, em)));
            },
            None => {
                self.entries.push((word, e));
                assert(table_of(self.entries@) =~= t.push((w, em)));
            },
        }
    }

    /// Binds `word` to `op` in this scope.
    pub fn insert(&mut self, word: &str, op: Operation)
        ensures
            final(self).chain() == old(self).chain().update(
                0,
                bind(old(self).chain()[0], word@, EntryModel::Op(op@)),
            ),
    {
        self.put(word.to_owned(), Entry::Op(op));
    }

    /// Binds `word` in this scope as an alias of `other`.
    pub fn insert_alias(&mut self, word: &str, other: &str)
        ensures
            final(self).chain() == old(self).chain().update(
                0,
                bind(old(self).chain()[0], word@, EntryModel::Alias(other@)),
            ),
    {
        self.put(word.to_owned(), Entry::Alias(other.to_owned()));
    }

    /// Every word visible from this scope: each name that some scope binds
    /// to an operation or that some alias leads to, once, with the aliases
    /// that lead to it, those of inner scopes first.
    pub fn available_words(&self) -> (r: Vec<(String, Vec<String>)>)
        ensures
            lists_chain(r@, self.chain()),
    {
        let ghost c = self.chain();
        let mut out: Vec<(String, Vec<String>)> = Vec::new();
        let mut cur: &Dictionary = self;
        let ghost mut d: int = 0;
        loop
            invariant
                0 <= d < c.len(),
                cur.chain() == c.subrange(d, c.len() as int),
                unique_names(out@),
                listing_sound(out@, c),
                forall|d2: int, j: int| 0 <= d2 < d && 0 <= j < c[d2].len() ==> entry_listed(out@, #[trigger] c[d2][j], c.subrange(d2, c.len() as int)),
            ensures
                unique_names(out@),
                listing_sound(out@, c),
                forall|d2: int, j: int| 0 <= d2 < c.len() && 0 <= j < c[d2].len() ==> entry_listed(out@, #[trigger] c[d2][j], c.subrange(d2, c.len() as int)),
            decreases c.len() - d,
        {
            proof {
                assert(cur.chain()[0] == c[d]);
            }
            let mut i: usize = 0;
            while i < cur.entries.len()
                invariant
                    0 <= d < c.len(),
                    cur.chain() == c.subrange(d, c.len() as int),
                    table_of(cur.entries@) == c[d],
                    i <= cur.entries@.len(),
                    unique_names(out@),
                    listing_sound(out@, c),
                    forall|d2: int, j: int| 0 <= d2 < d && 0 <= j < c[d2].len() ==> entry_listed(out@, #[trigger] c[d2][j], c.subrange(d2, c.len() as int)),
                    forall|j: int| 0 <= j < i ==> entry_listed(out@, #[trigger] c[d][j], c.subrange(d, c.len() as int)),
                decreases cur.entries@.len() - i,
            {
                let ghost before = out@;
                let (k, e) = &cur.entries[i];
                proof {
                    assert(c[d][i as int] == (k@, e@));
                }
                match e {
                    Entry::Op(_) => list_name(&mut out, k, Ghost(c)),
                    Entry::Alias(x) => {
                        let n = cur.end_name(x.as_str());
                        proof {
                            assert(c[d][i as int].1 is Alias);
                        }
                        list_alias(&mut out, &n, k, Ghost(c));
                    },
                }
                proof {
                    assert forall|d2: int, j: int| 0 <= d2 < d && 0 <= j < c[d2].len() implies entry_listed(out@, #[trigger] c[d2][j], c.subrange(d2, c.len() as int)) by {
                        lemma_listed_grows(before, out@, c[d2][j], c.subrange(d2, c.len() as int));
                    }
                    assert forall|j: int| 0 <= j < i + 1 implies entry_listed(out@, #[trigger] c[d][j], c.subrange(d, c.len() as int)) by {
                        if j < i {
                            lemma_listed_grows(before, out@, c[d][j], c.subrange(d, c.len() as int));
                        }
                    }
                }
                i += 1;
            }
            match &cur.parent {
                Some(p) => {
                    proof {
                        assert(cur.chain().drop_first() == p.chain());
                        assert(c.subrange(d + 1, c.len() as int) =~= c.subrange(d, c.len() as int).drop_first());
                        d = d + 1;
                    }
                    cur = &**p;
                },
                None => {
                    proof {
                        assert(cur.chain().len() == 1);
                        assert forall|d2: int, j: int| 0 <= d2 < c.len() && 0 <= j < c[d2].len() implies entry_listed(out@, #[trigger] c[d2][j], c.subrange(d2, c.len() as int)) by {
                            if d2 == d {
                                assert(table_of(cur.entries@).len() == cur.entries@.len());
                            }
                        }
                    }
                    break;
                },
            }
        }
        out
    }

    /// The name at which looking up `word` from this scope ends.
    pub fn end_name(&self, word: &str) -> (r: String)
        ensures
            r@ == end_name(self.chain(), word@),
        decreases self,
    {
        let ghost t = table_of(self.entries@);
        let fuel = self.entries.len();
        let mut name = word.to_owned();
        let mut steps: usize = 0;
        proof {
            let c = self.chain();
            assert(c[0] == t);
            match &self.parent {
                Some(p) => assert(c.drop_first() =~= p.chain()),
                None => assert(c.drop_first() =~= Seq::<Table>::empty()),
            }
        }
        loop
            invariant
                t == table_of(self.entries@),
                t == self.chain()[0],
                fuel == t.len(),
                steps <= fuel,
                chase_end(t, word@, fuel as nat) == chase_end(t, name@, (fuel - steps) as nat),
                match &self.parent {
                    Some(p) => self.chain().drop_first() == p.chain(),
                    None => self.chain().drop_first() == Seq::<Table>::empty(),
                },
            decreases fuel - steps,
        {
            match self.position(&name) {
                None => {
                    proof {
                        assert(chase_end(t, name@, (fuel - steps) as nat) == ChaseEnd::Missing(name@));
                        assert(end_name(self.chain(), word@) == end_name(self.chain().drop_first(), name@));
                    }
                    return match &self.parent {
                        Some(p) => p.end_name(name.as_str()),
                        None => name,
                    };
                },
                Some(i) => match &self.entries[i].1 {
                    Entry::Op(_) => {
                        return name;
                    },
                    Entry::Alias(x) => {
                        if steps == fuel {
                            return name;
                        }
                        name = x.clone();
                    },
                },
            }
            steps += 1;
        }
    }

    /// What `word` resolves to, looked up from this scope outwards.
    pub fn lookup(&self, word: &str) -> (r: Option<Operation>)
        ensures
            match r {
                Some(op) => resolve(self.chain(), word@) == Some(op@),
                None => resolve(self.chain(), word@) is None,
            },
        decreases self,
    {
        let ghost t = table_of(self.entries@);
        let fuel = self.entries.len();
        let mut name = word.to_owned();
        let mut steps: usize = 0;
        proof {
            let c = self.chain();
            assert(c[0] == t);
            match &self.parent {
                Some(p) => assert(c.drop_first() =~= p.chain()),
                None => assert(c.drop_first() =~= Seq::<Table>::empty()),
            }
        }
        loop
            invariant
                t == table_of(self.entries@),
                t == self.chain()[0],
                fuel == t.len(),
                steps <= fuel,
                chase(t, word@, fuel as nat) == chase(t, name@, (fuel - steps) as nat),
                match &self.parent {
                    Some(p) => self.chain().drop_first() == p.chain(),
                    None => self.chain().drop_first() == Seq::<Table>::empty(),
                },
            decreases fuel - steps,
        {
            match self.position(&name) {
                None => {
                    proof {
                        assert(chase(t, name@, (fuel - steps) as nat) == Chase::Missing(name@));
                        assert(chase(self.chain()[0], word@, self.chain()[0].len()) == Chase::Missing(name@));
                        assert(resolve(self.chain(), word@) == resolve(self.chain().drop_first(), name@));
                    }
                    return match &self.parent {
                        Some(p) => p.lookup(name.as_str()),
                        None => None,
                    };
                },
                Some(i) => match &self.entries[i].1 {
                    Entry::Op(op) => {
                        return Some(op.copy());
                    },
                    Entry::Alias(x) => {
                        if steps == fuel {
                            return None;
                        }
                        name = x.clone();
                    },
                },
            }
            steps += 1;
        }
    }
}

impl Default for Dictionary {
    /// A scope without parent that binds each builtin word.
    fn default() -> (r: Dictionary)
        ensures
            r.chain() == seq![builtin_table()],
    {
        let mut e: Vec<(String, Entry)> = Vec::new();
        assert(table_of(e@) =~= Seq::<(Seq<char>, EntryModel)>::empty());
        push_builtin(&mut e, "apply", BuiltinWord::Apply);
        push_builtin(&mut e, "add", BuiltinWord::Add);
        push_builtin(&mut e, "alias", BuiltinWord::Alias);
        push_builtin(&mut e, "def", BuiltinWord::Def);
        push_builtin(&mut e, "div", BuiltinWord::Div);
        push_builtin(&mut e, "dup", BuiltinWord::Duplicate);
        push_builtin(&mut e, "fold", BuiltinWord::Fold);
        push_builtin(&mut e, "fold1", BuiltinWord::Fold1);
        push_builtin(&mut e, "len", BuiltinWord::Length);
        push_builtin(&mut e, "map", BuiltinWord::MapEach);
        push_builtin(&mut e, "filter", BuiltinWord::Filter);
        push_builtin(&mut e, "mul", BuiltinWord::Mul);
        push_builtin(&mut e, "over", BuiltinWord::Over);
        push_builtin(&mut e, "pop", BuiltinWord::Pop);
        push_builtin(&mut e, "print", BuiltinWord::Print);
        push_builtin(&mut e, "dump", BuiltinWord::Dump);
        push_builtin(&mut e, "repeat", BuiltinWord::Repeat);
        push_builtin(&mut e, "roll3", BuiltinWord::Roll3);
        push_builtin(&mut e, "stdin", BuiltinWord::Stdin);
        push_builtin(&mut e, "sub", BuiltinWord::Sub);
        push_builtin(&mut e, "swap", BuiltinWord::Swap);
        push_builtin(&mut e, "arg", BuiltinWord::Arg);
        push_builtin(&mut e, "min", BuiltinWord::Min);
        push_builtin(&mut e, "max", BuiltinWord::Max);
        push_builtin(&mut e, "cmp", BuiltinWord::Cmp);
        push_builtin(&mut e, "if", BuiltinWord::If);
        push_builtin(&mut e, "mod", BuiltinWord::Mod);
        push_builtin(&mut e, "sqrt", BuiltinWord::Sqrt);
        push_builtin(&mut e, "pow", BuiltinWord::Pow);
        push_builtin(&mut e, "exp", BuiltinWord::Exp);
        push_builtin(&mut e, "log", BuiltinWord::Log);
        push_builtin(&mut e, "ln", BuiltinWord::Ln);
        push_builtin(&mut e, "sin", BuiltinWord::Sin);
        push_builtin(&mut e, "cos", BuiltinWord::Cos);
        push_builtin(&mut e, "tan", BuiltinWord::Tan);
        push_builtin(&mut e, "asin", BuiltinWord::Asin);
        push_builtin(&mut e, "acos", BuiltinWord::Acos);
        push_builtin(&mut e, "atan", BuiltinWord::Atan);
        assert(table_of(e@) == builtin_table());
        let r = Dictionary { entries: e, parent: None };
        assert(r.chain() == seq![table_of(r.entries@)]);
        r
    }
}

} // verus!
