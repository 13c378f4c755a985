//! Editing the recipient list, whose entries are `age1…` public keys in their
//! canonical text form.
use vstd::prelude::*;

verus! {

/// The texts of a list of recipients.
pub open spec fn texts(list: Seq<String>) -> Seq<Seq<char>> {
    list.map_values(|r: String| r@)
}

/// Whether `list` holds `key`.
pub fn contains_recipient(list: &Vec<String>, key: &str) -> (r: bool)
    ensures
        r == texts(list@).contains(key@),
{
    let k = key.to_owned();
    for i in 0..list.len()
        invariant
            k@ == key@,
            forall|j: int| 0 <= j < i ==> list@[j]@ != key@,
    {
        if list[i] == k {
            assert(texts(list@)[i as int] == key@);
            return true;
        }
    }
    proof {
        if texts(list@).contains(key@) {
            let j = choose|j: int| 0 <= j < texts(list@).len() && texts(list@)[j] == key@;
            assert(list@[j]@ == key@);
        }
    }
    false
}

/// The list after adding `new`, or `None` when it is already present (nothing
/// to do).
pub fn add_recipient(current: &Vec<String>, new: &str) -> (r: Option<Vec<String>>)
    ensures
        r is None <==> texts(current@).contains(new@),
        r matches Some(u) ==> texts(u@) == texts(current@).push(new@),
{
    if contains_recipient(current, new) {
        return None;
    }
    let mut u: Vec<String> = Vec::new();
    for i in 0..current.len()
        invariant
            texts(u@) == texts(current@.take(i as int)),
    {
        let ghost prev = u@;
        let c = current[i].clone();
        assert(c@ == current@[i as int]@);
        u.push(c);
        assert(texts(u@) == texts(prev).push(c@));
        assert(current@.take(i + 1) == current@.take(i as int).push(current@[i as int]));
        assert(texts(current@.take(i + 1)) == texts(current@.take(i as int)).push(c@));
    }
    assert(current@.take(current.len() as int) == current@);
    let ghost before = u@;
    u.push(new.to_owned());
    assert(texts(u@) == texts(before).push(new@));
    Some(u)
}

/// The list without `target`, or `None` when `target` is not in it (nothing to
/// do). The other recipients keep their order.
pub fn without_recipient(current: &Vec<String>, target: &str) -> (r: Option<Vec<String>>)
    ensures
        r is None <==> !texts(current@).contains(target@),
        r matches Some(u) ==> texts(u@) == texts(current@).filter(|t: Seq<char>| t != target@),
{
    let t = target.to_owned();
    let mut u: Vec<String> = Vec::new();
    let mut removed = false;
    for i in 0..current.len()
        invariant
            t@ == target@,
            texts(u@) == texts(current@.take(i as int)).filter(|x: Seq<char>| x != target@),
            removed <==> texts(current@.take(i as int)).contains(target@),
    {
        let ghost before = current@.take(i as int);
        assert(current@.take(i + 1) == before.push(current@[i as int]));
        assert(texts(current@.take(i + 1)) == texts(before).push(current@[i as int]@));
        assert(texts(current@.take(i + 1)).drop_last() == texts(before));
        reveal_with_fuel(Seq::<_>::filter, 1);
        if current[i] == t {
            removed = true;
        } else {
            u.push(current[i].clone());
        }
        proof {
            let tb = texts(before);
            let ta = texts(current@.take(i + 1));
            if tb.contains(target@) {
                let j = choose|j: int| 0 <= j < tb.len() && tb[j] == target@;
                assert(ta[j] == target@);
            }
            if ta.contains(target@) && current@[i as int]@ != target@ {
                let j = choose|j: int| 0 <= j < ta.len() && ta[j] == target@;
                assert(j != i);
                assert(tb[j] == target@);
            }
            assert(ta[i as int] == current@[i as int]@);
        }
    }
    assert(current@.take(current.len() as int) == current@);
    if removed {
        Some(u)
    } else {
        None
    }
}

/// `list` with `own` appended unless already present, so that removing a
/// recipient never locks the user out of their own store.
pub fn keep_own(list: Vec<String>, own: &str) -> (r: Vec<String>)
    ensures
        texts(r@) == (if texts(list@).contains(own@) {
            texts(list@)
        } else {
            texts(list@).push(own@)
        }),
        texts(r@).contains(own@),
{
    if contains_recipient(&list, own) {
        list
    } else {
        let mut l = list;
        let ghost before = l@;
        l.push(own.to_owned());
        assert(texts(l@) == texts(before).push(own@));
        assert(texts(l@)[texts(before).len() as int] == own@);
        l
    }
}


/// After a removal the removed key is gone, and every other recipient stays.
pub proof fn lemma_removal_exact(list: Seq<Seq<char>>, target: Seq<char>)
    ensures
        !list.filter(|t: Seq<char>| t != target).contains(target),
        forall|i: int|
            0 <= i < list.len() && list[i] != target ==> list.filter(
                |t: Seq<char>| t != target,
            ).contains(#[trigger] list[i]),
{
    let pred = |t: Seq<char>| t != target;
    let f = list.filter(pred);
    if f.contains(target) {
        let i = choose|i: int| 0 <= i < f.len() && f[i] == target;
        list.lemma_filter_pred(pred, i);
    }
    assert forall|i: int| 0 <= i < list.len() && list[i] != target implies f.contains(
        #[trigger] list[i],
    ) by {
        list.lemma_filter_contains(pred, i);
    }
}

} // verus!
