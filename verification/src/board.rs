//! The todo list and the info stack, and the edits that the API makes to
//! them.
use vstd::prelude::*;
use crate::items::{InfoItem, Keyed, Todo, new_info_item, new_todo};
use crate::text::{parse_unsigned, parse_usize, same_text};

verus! {

broadcast use vstd::seq_lib::group_seq_properties;

/// The 1-based position that `key` names, if it reads as a `usize`.
pub open spec fn key_position(key: Seq<char>) -> Option<nat> {
    parse_unsigned(key, usize::MAX as nat)
}

/// The test "the entry's id is not `key`".
pub open spec fn other_than<T: Keyed>(key: Seq<char>) -> spec_fn(T) -> bool {
    |t: T| t.key() != key
}

/// `list` without the entries whose id is `key`, in their order.
pub open spec fn without_key<T: Keyed>(list: Seq<T>, key: Seq<char>) -> Seq<T> {
    list.filter(other_than(key))
}

/// The list after a removal request for `key`: a key that reads as a number
/// is a 1-based position (out of range: nothing is removed); any other key
/// removes every entry with that id.
pub open spec fn after_remove<T: Keyed>(list: Seq<T>, key: Seq<char>) -> Seq<T> {
    match key_position(key) {
        Some(i) => if 1 <= i && i <= list.len() {
            list.remove(i - 1)
        } else {
            list
        },
        None => without_key(list, key),
    }
}

/// Keeps the entries of `list` whose id is not `key`, in their order.
fn retain_other_keys<T: Keyed>(list: &mut Vec<T>, key: &str)
    ensures
        final(list)@ == without_key(old(list)@, key@),
{
    let ghost pred = other_than::<T>(key@);
    let mut all: Vec<T> = Vec::new();
    std::mem::swap(&mut all, list);
    let ghost src = all@;
    assert(list@ == src.take(0).filter(pred));
    for x in it: all
        invariant
            it.seq() == src,
            list@ == src.take(it.index() as int).filter(pred),
            pred == other_than::<T>(key@),
    {
        let ghost i = it.index();
        assert(src.take(i + 1) == src.take(i as int).push(x));
        proof {
            src.take(i as int).lemma_filter_push(x, pred);
        }
        if !same_text(x.key_str(), key) {
            list.push(x);
        }
    }
    assert(src.take(src.len() as int) == src);
}

/// Removes what `key` names from `list` (see [`after_remove`]) and tells
/// whether anything was removed.
pub fn remove_entry<T: Keyed>(list: &mut Vec<T>, key: &str) -> (removed: bool)
    ensures
        final(list)@ == after_remove(old(list)@, key@),
        removed == (final(list)@.len() != old(list)@.len()),
{
    let before = list.len();
    match parse_usize(key) {
        Some(idx) => {
            if idx >= 1 && idx <= list.len() {
                list.remove(idx - 1);
            }
        },
        None => {
            retain_other_keys(list, key);
        },
    }
    proof {
        if key_position(key@) is None {
            old(list)@.lemma_filter_len(other_than::<T>(key@));
        }
    }
    before != list.len()
}


/// Whether `p` is the first position in `list` of an entry with id `id`.
pub open spec fn is_first_with_key<T: Keyed>(list: Seq<T>, id: Seq<char>, p: int) -> bool {
    &&& 0 <= p < list.len()
    &&& list[p].key() == id
    &&& forall|q: int| 0 <= q < p ==> #[trigger] list[q].key() != id
}

/// The first position in `list` of an entry with id `id`, if any.
pub open spec fn first_with_key<T: Keyed>(list: Seq<T>, id: Seq<char>) -> Option<int> {
    if exists|p: int| is_first_with_key(list, id, p) {
        Some(choose|p: int| is_first_with_key(list, id, p))
    } else {
        None
    }
}

/// The two parts of a reorder request after the ids `ids` have been taken in
/// turn: the entries moved to the front, in the order their ids were named,
/// and the entries left behind, in their old order. Each id moves the first
/// entry still left behind that has it; an id that matches none is skipped.
pub open spec fn pulled<T: Keyed>(list: Seq<T>, ids: Seq<Seq<char>>) -> (Seq<T>, Seq<T>)
    decreases ids.len(),
{
    if ids.len() == 0 {
        (Seq::empty(), list)
    } else {
        let (front, rest) = pulled(list, ids.drop_last());
        match first_with_key(rest, ids.last()) {
            Some(p) => (front.push(rest[p]), rest.remove(p)),
            None => (front, rest),
        }
    }
}

/// The list after a reorder request naming `ids`: the moved entries first,
/// then the others in their old order.
pub open spec fn reordered<T: Keyed>(list: Seq<T>, ids: Seq<Seq<char>>) -> Seq<T> {
    pulled(list, ids).0 + pulled(list, ids).1
}

/// The ids as character sequences.
pub open spec fn id_texts(ids: Seq<String>) -> Seq<Seq<char>> {
    ids.map_values(|s: String| s@)
}

/// The first position in `list` of an entry with id `id`.
fn find_key<T: Keyed>(list: &Vec<T>, id: &str) -> (r: Option<usize>)
    ensures
        match r {
            Some(p) => first_with_key(list@, id@) == Some(p as int),
            None => first_with_key(list@, id@) is None,
        },
{
    let n = list.len();
    for p in 0..n
        invariant
            n == list@.len(),
            forall|q: int| 0 <= q < p ==> #[trigger] list@[q].key() != id@,
    {
        if same_text(list[p].key_str(), id) {
            assert(is_first_with_key(list@, id@, p as int));
            proof {
                let c = choose|c: int| is_first_with_key(list@, id@, c);
                assert(c == p as int) by {
                    if c < p {
                        assert(list@[c].key() != id@);
                    } else if c > p {
                        assert(list@[p as int].key() != id@);
                    }
                }
            }
            return Some(p);
        }
    }
    assert forall|c: int| !is_first_with_key(list@, id@, c) by {
        if 0 <= c < n {
            assert(list@[c].key() != id@);
        }
    }
    None
}

/// Moves the entries named by `ids` to the front of `list`, in the order the
/// ids are given, and keeps the others after them in their old order.
pub fn reorder_entries<T: Keyed>(list: &mut Vec<T>, ids: &Vec<String>)
    ensures
        final(list)@ == reordered(old(list)@, id_texts(ids@)),
{
    let ghost src = list@;
    let ghost names = id_texts(ids@);
    let mut rest: Vec<T> = Vec::new();
    std::mem::swap(&mut rest, list);
    let mut front: Vec<T> = Vec::new();
    let n = ids.len();
    assert(names.take(0) == Seq::<Seq<char>>::empty());
    for k in 0..n
        invariant
            n == ids@.len(),
            names == id_texts(ids@),
            (front@, rest@) == pulled(src, names.take(k as int)),
    {
        let id = ids[k].as_str();
        assert(names.take(k + 1).drop_last() == names.take(k as int));
        assert(names.take(k + 1).last() == id@);
        match find_key(&rest, id) {
            Some(p) => {
                let t = rest.remove(p);
                front.push(t);
            },
            None => {},
        }
    }
    assert(names.take(n as int) == names);
    front.append(&mut rest);
    *list = front;
}

/// Pushes a fresh todo holding `text` (see [`new_todo`]) and returns it.
pub fn add_todo(todos: &mut Vec<Todo>, text: String) -> (t: Todo)
    ensures
        final(todos)@ == old(todos)@.push(t),
        t.text == text,
        crate::items::is_uuid_v4_text(t.id@),
{
    let t = new_todo(text);
    todos.push(t.clone());
    t
}

/// Removes the todo that `key` names (see [`after_remove`]); tells whether
/// one was removed.
pub fn rm_todo(todos: &mut Vec<Todo>, key: &str) -> (removed: bool)
    ensures
        final(todos)@ == after_remove(old(todos)@, key@),
        removed == (final(todos)@.len() != old(todos)@.len()),
{
    remove_entry(todos, key)
}

/// Moves the todos named by `ids` to the front (see [`reordered`]).
pub fn reorder_todos(todos: &mut Vec<Todo>, ids: &Vec<String>)
    ensures
        final(todos)@ == reordered(old(todos)@, id_texts(ids@)),
{
    reorder_entries(todos, ids)
}

/// Pushes a fresh info item holding `text` on top of the stack and returns it.
pub fn push_info(info: &mut Vec<InfoItem>, text: String) -> (i: InfoItem)
    ensures
        final(info)@ == old(info)@.push(i),
        i.text == text,
        crate::items::is_uuid_v4_text(i.id@),
{
    let i = new_info_item(text);
    info.push(i.clone());
    i
}

/// What popping the stack `stack` gives: its top, if any, and the stack
/// without it.
pub open spec fn popped(stack: Seq<InfoItem>) -> (Option<InfoItem>, Seq<InfoItem>) {
    if stack.len() > 0 {
        (Some(stack.last()), stack.drop_last())
    } else {
        (None, stack)
    }
}

/// Takes the top of the info stack, if there is one (see [`popped`]).
pub fn pop_info(info: &mut Vec<InfoItem>) -> (top: Option<InfoItem>)
    ensures
        (top, final(info)@) == popped(old(info)@),
{
    info.pop()
}

/// Removes the info item that `key` names (see [`after_remove`]); tells
/// whether one was removed.
pub fn rm_info(info: &mut Vec<InfoItem>, key: &str) -> (removed: bool)
    ensures
        final(info)@ == after_remove(old(info)@, key@),
        removed == (final(info)@.len() != old(info)@.len()),
{
    remove_entry(info, key)
}


// ------------------------------------------------------------------
// Laws
// ------------------------------------------------------------------

/// Whether no two entries of `s` share an id.
pub open spec fn unique_keys<T: Keyed>(s: Seq<T>) -> bool {
    forall|i: int, j: int| 0 <= i < j < s.len() ==> #[trigger] s[i].key() != #[trigger] s[j].key()
}

/// Whether some entry of `list` has id `id`.
pub open spec fn has_key<T: Keyed>(list: Seq<T>, id: Seq<char>) -> bool {
    exists|i: int| 0 <= i < list.len() && #[trigger] list[i].key() == id
}

/// The entry of `list` with id `id` (meaningful where there is one).
pub open spec fn entry_with_key<T: Keyed>(list: Seq<T>, id: Seq<char>) -> T {
    list[choose|i: int| 0 <= i < list.len() && #[trigger] list[i].key() == id]
}

proof fn lemma_filter_all<A>(s: Seq<A>, p: spec_fn(A) -> bool)
    requires
        forall|i: int| 0 <= i < s.len() ==> p(#[trigger] s[i]),
    ensures
        s.filter(p) == s,
    decreases s.len(),
{
    reveal(Seq::filter);
    if s.len() > 0 {
        assert forall|i: int| 0 <= i < s.drop_last().len() implies p(#[trigger] s.drop_last()[i]) by {
            assert(s.drop_last()[i] == s[i]);
        }
        lemma_filter_all(s.drop_last(), p);
        assert(p(s[s.len() - 1]));
        assert(s.drop_last().push(s.last()) == s);
    }
}

proof fn lemma_filter_filter<A>(s: Seq<A>, p: spec_fn(A) -> bool, q: spec_fn(A) -> bool)
    ensures
        s.filter(p).filter(q) == s.filter(|x: A| p(x) && q(x)),
    decreases s.len(),
{
    reveal(Seq::filter);
    if s.len() > 0 {
        lemma_filter_filter(s.drop_last(), p, q);
        let pq = |x: A| p(x) && q(x);
        s.drop_last().filter(p).lemma_filter_push(s.last(), q);
    }
}

proof fn lemma_filter_unique_keys<T: Keyed>(s: Seq<T>, p: spec_fn(T) -> bool)
    requires
        unique_keys(s),
    ensures
        unique_keys(s.filter(p)),
    decreases s.len(),
{
    reveal(Seq::filter);
    if s.len() > 0 {
        let d = s.drop_last();
        assert(unique_keys(d)) by {
            assert forall|i: int, j: int| 0 <= i < j < d.len() implies #[trigger] d[i].key()
                != #[trigger] d[j].key() by {
                assert(d[i] == s[i] && d[j] == s[j]);
            }
        }
        lemma_filter_unique_keys(d, p);
        let f = d.filter(p);
        if p(s.last()) {
            let g = f.push(s.last());
            assert forall|i: int, j: int| 0 <= i < j < g.len() implies #[trigger] g[i].key()
                != #[trigger] g[j].key() by {
                if j == g.len() - 1 {
                    assert(f.contains(g[i])) by {
                        assert(f[i] == g[i]);
                    }
                    d.lemma_filter_contains_rev(p, g[i]);
                    let m = choose|m: int| 0 <= m < d.len() && d[m] == g[i];
                    assert(d[m] == s[m]);
                    assert(s[m].key() != s[s.len() - 1].key());
                } else {
                    assert(g[i] == f[i] && g[j] == f[j]);
                }
            }
        }
    }
}

proof fn lemma_remove_first_is_filter<T: Keyed>(r: Seq<T>, id: Seq<char>, p: int)
    requires
        unique_keys(r),
        is_first_with_key(r, id, p),
    ensures
        r.remove(p) == r.filter(|t: T| t.key() != id),
    decreases r.len(),
{
    reveal(Seq::filter);
    let pred = |t: T| t.key() != id;
    let d = r.drop_last();
    if p == r.len() - 1 {
        assert forall|i: int| 0 <= i < d.len() implies pred(#[trigger] d[i]) by {
            assert(d[i] == r[i]);
        }
        lemma_filter_all(d, pred);
        assert(r.remove(p) == d);
    } else {
        assert(unique_keys(d)) by {
            assert forall|i: int, j: int| 0 <= i < j < d.len() implies #[trigger] d[i].key()
                != #[trigger] d[j].key() by {
                assert(d[i] == r[i] && d[j] == r[j]);
            }
        }
        assert(is_first_with_key(d, id, p)) by {
            assert forall|q: int| 0 <= q < p implies #[trigger] d[q].key() != id by {
                assert(d[q] == r[q]);
            }
        }
        lemma_remove_first_is_filter(d, id, p);
        assert(r[p].key() != r[r.len() - 1].key());
        assert(r.remove(p) == d.remove(p).push(r.last()));
    }
}

proof fn lemma_no_key_is_filter<T: Keyed>(r: Seq<T>, id: Seq<char>)
    requires
        first_with_key(r, id) is None,
    ensures
        r.filter(|t: T| t.key() != id) == r,
        !has_key(r, id),
{
    if has_key(r, id) {
        let i = choose|i: int| 0 <= i < r.len() && #[trigger] r[i].key() == id;
        lemma_first_exists(r, id, i);
    }
    assert forall|i: int| 0 <= i < r.len() implies (|t: T| t.key() != id)(#[trigger] r[i]) by {
        if r[i].key() == id {
            lemma_first_exists(r, id, i);
        }
    }
    lemma_filter_all(r, |t: T| t.key() != id);
}

proof fn lemma_first_exists<T: Keyed>(r: Seq<T>, id: Seq<char>, i: int)
    requires
        0 <= i < r.len(),
        r[i].key() == id,
    ensures
        first_with_key(r, id) is Some,
    decreases i,
{
    if exists|q: int| 0 <= q < i && #[trigger] r[q].key() == id {
        let q = choose|q: int| 0 <= q < i && #[trigger] r[q].key() == id;
        lemma_first_exists(r, id, q);
    } else {
        assert(is_first_with_key(r, id, i));
    }
}

/// The ids in the order they are first named, each once.
pub open spec fn first_mentions(ids: Seq<Seq<char>>) -> Seq<Seq<char>>
    decreases ids.len(),
{
    if ids.len() == 0 {
        Seq::empty()
    } else if ids.drop_last().contains(ids.last()) {
        first_mentions(ids.drop_last())
    } else {
        first_mentions(ids.drop_last()).push(ids.last())
    }
}

/// The front part of a reorder: the entries with a named id, in the order
/// their ids are first named.
pub open spec fn named_entries<T: Keyed>(list: Seq<T>, ids: Seq<Seq<char>>) -> Seq<T> {
    first_mentions(ids).filter(|id: Seq<char>| has_key(list, id)).map_values(
        |id: Seq<char>| entry_with_key(list, id),
    )
}

/// The entries of `list` whose id is not among `ids`, in their order.
pub open spec fn unnamed_entries<T: Keyed>(list: Seq<T>, ids: Seq<Seq<char>>) -> Seq<T> {
    list.filter(|t: T| !ids.contains(t.key()))
}

proof fn lemma_first_mentions_named(ids: Seq<Seq<char>>, x: Seq<char>)
    requires
        first_mentions(ids).contains(x),
    ensures
        ids.contains(x),
    decreases ids.len(),
{
    if ids.len() > 0 {
        let prev = ids.drop_last();
        if first_mentions(prev).contains(x) {
            lemma_first_mentions_named(prev, x);
            let j = choose|j: int| 0 <= j < prev.len() && prev[j] == x;
            assert(ids[j] == x);
        } else {
            assert(x == ids.last());
            assert(ids[ids.len() - 1] == x);
        }
    }
}

proof fn lemma_pulled_unique<T: Keyed>(list: Seq<T>, ids: Seq<Seq<char>>)
    requires
        unique_keys(list),
    ensures
        pulled(list, ids) == (named_entries(list, ids), unnamed_entries(list, ids)),
    decreases ids.len(),
{
    reveal(Seq::filter);
    if ids.len() == 0 {
        let pr = |t: T| !ids.contains(t.key());
        assert forall|i: int| 0 <= i < list.len() implies pr(#[trigger] list[i]) by {}
        lemma_filter_all(list, pr);
        assert(named_entries(list, ids) == Seq::<T>::empty());
    } else {
        let prev = ids.drop_last();
        let id = ids.last();
        assert(ids == prev.push(id));
        lemma_pulled_unique(list, prev);
        let front = named_entries(list, prev);
        let rest = unnamed_entries(list, prev);
        let pr = |t: T| !prev.contains(t.key());
        let pk = |t: T| t.key() != id;
        let pn = |t: T| !ids.contains(t.key());
        if prev.contains(id) {
            // A repeated id finds nothing: its entry has already moved.
            assert(pn == pr) by {
                assert forall|x: T| #[trigger] pn(x) == pr(x) by {
                    if prev.contains(x.key()) {
                        let j = choose|j: int| 0 <= j < prev.len() && prev[j] == x.key();
                        assert(ids[j] == x.key());
                    }
                }
            }
            assert forall|q: int| 0 <= q < rest.len() implies #[trigger] rest[q].key() != id by {
                list.lemma_filter_pred(pr, q);
            }
            assert(!exists|p: int| is_first_with_key(rest, id, p));
        } else {
            // The entries left behind after `ids` are those left after `prev`
            // without the ones with id `id`.
            lemma_filter_filter(list, pr, pk);
            assert(rest.filter(pk) == unnamed_entries(list, ids)) by {
                assert((|x: T| pr(x) && pk(x)) == pn) by {
                    assert forall|x: T| #[trigger] pn(x) == (pr(x) && pk(x)) by {}
                }
            }
            lemma_filter_unique_keys(list, pr);
            let fm = first_mentions(prev);
            let hk = |i: Seq<char>| has_key(list, i);
            let ek = |i: Seq<char>| entry_with_key(list, i);
            fm.lemma_filter_push(id, hk);
            assert(first_mentions(ids) == fm.push(id));
            match first_with_key(rest, id) {
                Some(p) => {
                    let p = choose|p: int| is_first_with_key(rest, id, p);
                    lemma_remove_first_is_filter(rest, id, p);
                    // the entry moved is the one entry of `list` with that id
                    assert(rest.contains(rest[p]));
                    list.lemma_filter_contains_rev(pr, rest[p]);
                    let m = choose|m: int| 0 <= m < list.len() && list[m] == rest[p];
                    assert(has_key(list, id));
                    let c = choose|c: int| 0 <= c < list.len() && #[trigger] list[c].key() == id;
                    assert(c == m) by {
                        if c != m {
                            if c < m {
                                assert(list[c].key() != list[m].key());
                            } else {
                                assert(list[m].key() != list[c].key());
                            }
                        }
                    }
                    assert(hk(id));
                    fm.filter(hk).lemma_push_map_commute(ek, id);
                },
                None => {
                    lemma_no_key_is_filter(rest, id);
                    assert(!has_key(list, id)) by {
                        if has_key(list, id) {
                            let c = choose|c: int|
                                0 <= c < list.len() && #[trigger] list[c].key() == id;
                            assert(pr(list[c]));
                            list.lemma_filter_contains(pr, c);
                            let q = choose|q: int| 0 <= q < rest.len() && rest[q] == list[c];
                            assert(rest[q].key() == id);
                        }
                    }
                    assert(!hk(id));
                },
            }
        }
    }
}

/// Reordering by ids moves the named entries to the front in the order
/// their ids are first given and keeps every other entry after them in its
/// old order, when no two entries share an id.
pub proof fn law_reorder_moves_named_to_front<T: Keyed>(list: Seq<T>, ids: Seq<Seq<char>>)
    requires
        unique_keys(list),
    ensures
        reordered(list, ids) == named_entries(list, ids) + unnamed_entries(list, ids),
{
    lemma_pulled_unique(list, ids);
}

proof fn lemma_pulled_permutes<T: Keyed>(list: Seq<T>, ids: Seq<Seq<char>>)
    ensures
        pulled(list, ids).0.to_multiset().add(pulled(list, ids).1.to_multiset())
            == list.to_multiset(),
    decreases ids.len(),
{
    broadcast use vstd::seq_lib::group_to_multiset_ensures;

    if ids.len() > 0 {
        lemma_pulled_permutes(list, ids.drop_last());
        let (front, rest) = pulled(list, ids.drop_last());
        match first_with_key(rest, ids.last()) {
            Some(p) => {
                let p = choose|p: int| is_first_with_key(rest, ids.last(), p);
                assert(front.push(rest[p]).to_multiset() == front.to_multiset().insert(rest[p]));
                assert(rest.remove(p).to_multiset() == rest.to_multiset().remove(rest[p]));
                assert(rest.to_multiset().count(rest[p]) > 0) by {
                    assert(rest.contains(rest[p]));
                }
                assert(front.push(rest[p]).to_multiset().add(rest.remove(p).to_multiset())
                    =~= front.to_multiset().add(rest.to_multiset()));
            },
            None => {},
        }
    } else {
        assert(Seq::<T>::empty().to_multiset() =~= vstd::multiset::Multiset::empty());
        assert(vstd::multiset::Multiset::<T>::empty().add(list.to_multiset()) =~= list.to_multiset());
    }
}

/// Reordering never adds, drops or duplicates an entry: the result holds
/// exactly the entries of the list, each as often as before.
pub proof fn law_reorder_permutes<T: Keyed>(list: Seq<T>, ids: Seq<Seq<char>>)
    ensures
        reordered(list, ids).to_multiset() == list.to_multiset(),
{
    lemma_pulled_permutes(list, ids);
    vstd::seq_lib::lemma_multiset_commutative(pulled(list, ids).0, pulled(list, ids).1);
}

/// A reorder that names no id leaves the list as it was.
pub proof fn law_reorder_without_ids_keeps_order<T: Keyed>(list: Seq<T>)
    ensures
        reordered(list, Seq::<Seq<char>>::empty()) == list,
{
}

/// An id made by [`new_todo`] never reads as a position, so a removal
/// request with the id of the entry just added takes out that entry and
/// every other one with the same id, and nothing else.
pub proof fn law_remove_by_fresh_id<T: Keyed>(list: Seq<T>, t: T)
    requires
        crate::items::is_uuid_v4_text(t.key()),
    ensures
        key_position(t.key()) is None,
        after_remove(list.push(t), t.key()) == without_key(list, t.key()),
        !has_key(after_remove(list.push(t), t.key()), t.key()),
        after_remove(list.push(t), t.key()).len() < list.push(t).len(),
{
    let k = t.key();
    let body = if k.len() > 0 && k[0] == '+' { k.drop_first() } else { k };
    assert(k[0] != '+') by {
        assert(crate::items::is_lower_hex(k[0]));
    }
    assert(!crate::text::all_digits(body)) by {
        assert(body[8] == '-');
    }
    let pk = other_than::<T>(k);
    list.lemma_filter_push(t, pk);
    assert(!pk(t));
    let r = without_key(list, k);
    assert forall|i: int| 0 <= i < r.len() implies #[trigger] r[i].key() != k by {
        list.lemma_filter_pred(pk, i);
    }
    list.lemma_filter_len(pk);
}

/// Removing by a 1-based position in range takes out exactly the entry
/// there and keeps the others in order.
pub proof fn law_remove_by_position<T: Keyed>(list: Seq<T>, key: Seq<char>, i: nat)
    requires
        key_position(key) == Some(i),
        1 <= i <= list.len(),
    ensures
        after_remove(list, key) == list.remove(i - 1),
        after_remove(list, key).len() == list.len() - 1,
{
}

/// The info stack is last in, first out: popping right after a push gives
/// back the item pushed and leaves the stack as it was.
pub proof fn law_info_push_then_pop(stack: Seq<InfoItem>, item: InfoItem)
    ensures
        popped(stack.push(item)) == (Some(item), stack),
{
    assert(stack.push(item).drop_last() == stack);
}

proof fn lemma_same_entries_unique<T: Keyed>(list: Seq<T>, other: Seq<T>)
    requires
        unique_keys(list),
        other.to_multiset() == list.to_multiset(),
    ensures
        unique_keys(other),
        forall|x: T| #[trigger] other.contains(x) == list.contains(x),
{
    broadcast use vstd::seq_lib::group_to_multiset_ensures;

    assert forall|x: T| #[trigger] other.contains(x) == list.contains(x) by {
        vstd::seq_lib::to_multiset_contains(other, x);
        vstd::seq_lib::to_multiset_contains(list, x);
    }
    assert(list.no_duplicates()) by {
        assert forall|i: int, j: int| 0 <= i < list.len() && 0 <= j < list.len() && i != j
            implies list[i] != list[j] by {
            if i < j {
                assert(list[i].key() != list[j].key());
            } else {
                assert(list[j].key() != list[i].key());
            }
        }
    }
    list.lemma_multiset_has_no_duplicates();
    other.lemma_multiset_has_no_duplicates_conv();
    assert forall|i: int, j: int| 0 <= i < j < other.len() implies #[trigger] other[i].key()
        != #[trigger] other[j].key() by {
        assert(other[i] != other[j]);
        assert(other.contains(other[i]) && other.contains(other[j]));
        let p = choose|p: int| 0 <= p < list.len() && list[p] == other[i];
        let q = choose|q: int| 0 <= q < list.len() && list[q] == other[j];
        if p < q {
            assert(list[p].key() != list[q].key());
        } else if q < p {
            assert(list[q].key() != list[p].key());
        }
    }
}

proof fn lemma_same_entries_keys<T: Keyed>(list: Seq<T>, other: Seq<T>, id: Seq<char>)
    requires
        unique_keys(list),
        unique_keys(other),
        forall|x: T| #[trigger] other.contains(x) == list.contains(x),
    ensures
        has_key(other, id) == has_key(list, id),
        has_key(list, id) ==> entry_with_key(other, id) == entry_with_key(list, id),
{
    if has_key(other, id) {
        let c = choose|c: int| 0 <= c < other.len() && #[trigger] other[c].key() == id;
        assert(other.contains(other[c]));
        assert(list.contains(other[c]));
        let m = choose|m: int| 0 <= m < list.len() && list[m] == other[c];
        assert(list[m].key() == id);
    }
    if has_key(list, id) {
        let c = choose|c: int| 0 <= c < list.len() && #[trigger] list[c].key() == id;
        assert(list.contains(list[c]));
        assert(other.contains(list[c]));
        let m = choose|m: int| 0 <= m < other.len() && other[m] == list[c];
        assert(other[m].key() == id);
        let c2 = choose|c2: int| 0 <= c2 < other.len() && #[trigger] other[c2].key() == id;
        assert(c2 == m) by {
            if c2 < m {
                assert(other[c2].key() != other[m].key());
            } else if m < c2 {
                assert(other[m].key() != other[c2].key());
            }
        }
    }
}

/// Reordering twice by the same ids gives the same list as reordering once,
/// when no two entries share an id (the ids may repeat).
pub proof fn law_reorder_idempotent<T: Keyed>(list: Seq<T>, ids: Seq<Seq<char>>)
    requires
        unique_keys(list),
    ensures
        reordered(reordered(list, ids), ids) == reordered(list, ids),
{
    let once = reordered(list, ids);
    let named = named_entries(list, ids);
    let unnamed = unnamed_entries(list, ids);
    lemma_pulled_unique(list, ids);
    assert(once == named + unnamed);
    law_reorder_permutes(list, ids);
    lemma_same_entries_unique(list, once);
    lemma_pulled_unique(once, ids);
    // the named part is the same: the same entries answer to each id
    let fm = first_mentions(ids);
    let hk = |i: Seq<char>| has_key(list, i);
    let hk1 = |i: Seq<char>| has_key(once, i);
    let ek = |i: Seq<char>| entry_with_key(list, i);
    let ek1 = |i: Seq<char>| entry_with_key(once, i);
    assert(hk1 == hk) by {
        assert forall|i: Seq<char>| #[trigger] hk1(i) == hk(i) by {
            lemma_same_entries_keys(list, once, i);
        }
    }
    let f = fm.filter(hk);
    assert(named_entries(once, ids) == named) by {
        assert forall|i: int| 0 <= i < f.len() implies #[trigger] ek1(f[i]) == ek(f[i]) by {
            fm.lemma_filter_pred(hk, i);
            lemma_same_entries_keys(list, once, f[i]);
        }
        assert(f.map_values(ek1) == f.map_values(ek));
    }
    // the part left behind is the same: every named entry has a named id
    let pn = |t: T| !ids.contains(t.key());
    Seq::<T>::filter_distributes_over_add(named, unnamed, pn);
    assert(named.all(|x: T| !pn(x))) by {
        assert forall|i: int| 0 <= i < named.len() implies !pn(#[trigger] named[i]) by {
            fm.lemma_filter_pred(hk, i);
            assert(f.contains(f[i]));
            fm.lemma_filter_contains_rev(hk, f[i]);
            lemma_first_mentions_named(ids, f[i]);
            let c = choose|c: int| 0 <= c < list.len() && #[trigger] list[c].key() == f[i];
            assert(named[i] == list[c]);
        }
    }
    named.lemma_all_neg_filter_empty(pn);
    assert forall|i: int| 0 <= i < unnamed.len() implies pn(#[trigger] unnamed[i]) by {
        list.lemma_filter_pred(pn, i);
    }
    lemma_filter_all(unnamed, pn);
    assert(named.filter(pn) == Seq::<T>::empty());
    assert(unnamed_entries(once, ids) == unnamed);
}

proof fn lemma_filter_shorter<A>(s: Seq<A>, p: spec_fn(A) -> bool, i: int)
    requires
        0 <= i < s.len(),
        !p(s[i]),
    ensures
        s.filter(p).len() < s.len(),
    decreases s.len(),
{
    reveal(Seq::filter);
    let d = s.drop_last();
    d.lemma_filter_len(p);
    if i < s.len() - 1 {
        assert(d[i] == s[i]);
        lemma_filter_shorter(d, p, i);
    }
}

/// Removing by an id (a key that does not read as a number) keeps exactly
/// the entries whose id differs from it, in their order, wherever the
/// matching entries stand: none of the result has the id, every entry of
/// the list without the id is kept, and an entry was removed exactly when
/// the list had one with that id.
pub proof fn law_remove_by_id<T: Keyed>(list: Seq<T>, key: Seq<char>)
    requires
        key_position(key) is None,
    ensures
        after_remove(list, key) == list.filter(|t: T| t.key() != key),
        forall|i: int|
            0 <= i < after_remove(list, key).len() ==> #[trigger] after_remove(list, key)[i].key()
                != key,
        forall|i: int|
            0 <= i < list.len() && list[i].key() != key ==> after_remove(list, key).contains(
                #[trigger] list[i],
            ),
        (after_remove(list, key).len() < list.len()) == has_key(list, key),
{
    let p = |t: T| t.key() != key;
    assert(other_than::<T>(key) == p);
    let r = list.filter(p);
    assert forall|i: int| 0 <= i < r.len() implies #[trigger] r[i].key() != key by {
        list.lemma_filter_pred(p, i);
    }
    assert forall|i: int| 0 <= i < list.len() && list[i].key() != key implies r.contains(
        #[trigger] list[i],
    ) by {
        list.lemma_filter_contains(p, i);
    }
    if has_key(list, key) {
        let i = choose|i: int| 0 <= i < list.len() && #[trigger] list[i].key() == key;
        lemma_filter_shorter(list, p, i);
    } else {
        assert forall|i: int| 0 <= i < list.len() implies p(#[trigger] list[i]) by {}
        lemma_filter_all(list, p);
    }
}

/// A key that reads as a position outside `1..=len` removes nothing.
pub proof fn law_remove_out_of_range<T: Keyed>(list: Seq<T>, key: Seq<char>, i: nat)
    requires
        key_position(key) == Some(i),
        i == 0 || i > list.len(),
    ensures
        after_remove(list, key) == list,
{
}

} // verus!
