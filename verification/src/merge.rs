//! Merging two sequences of items that are ordered by a key.
use std::cmp::Ordering;
use vstd::prelude::*;

verus! {

/// An item of a merged pair of sequences: from the left only, from the right only,
/// or a left item paired with a right item.
#[derive(Clone, Copy)]
pub enum MergeResult<T, U> {
    Left(T),
    Right(U),
    Both(T, U),
}

impl<T> MergeResult<T, T> {
    /// The item by which a merged entry is ordered: the right item where there is one.
    pub open spec fn order_item(&self) -> T {
        match self {
            MergeResult::Left(x) => *x,
            MergeResult::Right(x) => *x,
            MergeResult::Both(_, x) => *x,
        }
    }

    /// Whether the item by which the entry is ordered comes from the left.
    pub open spec fn order_is_left(&self) -> bool {
        self is Left
    }

    /// Compare two merged entries, each by its right item if it has one, else by its
    /// left item; `f` receives each item with the argument of its side.
    pub fn cmp<Arg, F>(x: &Self, y: &Self, arg_left: Arg, arg_right: Arg, f: F) -> (res: Ordering) where
        Arg: Copy,
        F: Fn(&T, Arg, &T, Arg) -> Ordering,

        requires
            f.requires(
                (
                    &x.order_item(),
                    if x.order_is_left() {
                        arg_left
                    } else {
                        arg_right
                    },
                    &y.order_item(),
                    if y.order_is_left() {
                        arg_left
                    } else {
                        arg_right
                    },
                ),
            ),
        ensures
            f.ensures(
                (
                    &x.order_item(),
                    if x.order_is_left() {
                        arg_left
                    } else {
                        arg_right
                    },
                    &y.order_item(),
                    if y.order_is_left() {
                        arg_left
                    } else {
                        arg_right
                    },
                ),
                res,
            ),
    {
        match x {
            MergeResult::Both(_, x_right) => match y {
                MergeResult::Both(_, y_right) => f(x_right, arg_right, y_right, arg_right),
                MergeResult::Left(y_left) => f(x_right, arg_right, y_left, arg_left),
                MergeResult::Right(y_right) => f(x_right, arg_right, y_right, arg_right),
            },
            MergeResult::Left(x_left) => match y {
                MergeResult::Both(_, y_right) => f(x_left, arg_left, y_right, arg_right),
                MergeResult::Left(y_left) => f(x_left, arg_left, y_left, arg_left),
                MergeResult::Right(y_right) => f(x_left, arg_left, y_right, arg_right),
            },
            MergeResult::Right(x_right) => match y {
                MergeResult::Both(_, y_right) => f(x_right, arg_right, y_right, arg_right),
                MergeResult::Left(y_left) => f(x_right, arg_right, y_left, arg_left),
                MergeResult::Right(y_right) => f(x_right, arg_right, y_right, arg_right),
            },
        }
    }
}


/// Merge two sequences of keyed items: while both have items, the one with the smaller
/// key comes first, and two items with equal keys are paired.
pub open spec fn merge_keyed<T, U>(l: Seq<(u64, T)>, r: Seq<(u64, U)>) -> Seq<
    MergeResult<(u64, T), (u64, U)>,
>
    decreases l.len() + r.len(),
{
    if l.len() == 0 && r.len() == 0 {
        Seq::empty()
    } else if l.len() == 0 {
        seq![MergeResult::Right(r[0])] + merge_keyed(l, r.drop_first())
    } else if r.len() == 0 {
        seq![MergeResult::Left(l[0])] + merge_keyed(l.drop_first(), r)
    } else if l[0].0 == r[0].0 {
        seq![MergeResult::Both(l[0], r[0])] + merge_keyed(l.drop_first(), r.drop_first())
    } else if l[0].0 < r[0].0 {
        seq![MergeResult::Left(l[0])] + merge_keyed(l.drop_first(), r)
    } else {
        seq![MergeResult::Right(r[0])] + merge_keyed(l, r.drop_first())
    }
}

/// The left items of merged entries, in order.
pub open spec fn left_items<T, U>(s: Seq<MergeResult<T, U>>) -> Seq<T>
    decreases s.len(),
{
    if s.len() == 0 {
        Seq::empty()
    } else {
        match s[0] {
            MergeResult::Left(a) => seq![a] + left_items(s.drop_first()),
            MergeResult::Both(a, _) => seq![a] + left_items(s.drop_first()),
            MergeResult::Right(_) => left_items(s.drop_first()),
        }
    }
}

/// The right items of merged entries, in order.
pub open spec fn right_items<T, U>(s: Seq<MergeResult<T, U>>) -> Seq<U>
    decreases s.len(),
{
    if s.len() == 0 {
        Seq::empty()
    } else {
        match s[0] {
            MergeResult::Right(b) => seq![b] + right_items(s.drop_first()),
            MergeResult::Both(_, b) => seq![b] + right_items(s.drop_first()),
            MergeResult::Left(_) => right_items(s.drop_first()),
        }
    }
}

/// The key of a merged entry (for a pair, the key of its left item).
pub open spec fn entry_key<T, U>(e: MergeResult<(u64, T), (u64, U)>) -> u64 {
    match e {
        MergeResult::Left(a) => a.0,
        MergeResult::Right(b) => b.0,
        MergeResult::Both(a, _) => a.0,
    }
}

/// The keys strictly increase along the sequence.
pub open spec fn keys_increasing<T>(s: Seq<(u64, T)>) -> bool {
    forall|i: int, j: int| 0 <= i < j < s.len() ==> s[i].0 < s[j].0
}

/// The key occurs in the sequence.
pub open spec fn has_key<T>(s: Seq<(u64, T)>, k: u64) -> bool {
    exists|i: int| 0 <= i < s.len() && s[i].0 == k
}

proof fn lemma_left_items_cons<T, U>(e: MergeResult<T, U>, s: Seq<MergeResult<T, U>>)
    ensures
        left_items(seq![e] + s) == match e {
            MergeResult::Left(a) => seq![a] + left_items(s),
            MergeResult::Both(a, _) => seq![a] + left_items(s),
            MergeResult::Right(_) => left_items(s),
        },
        right_items(seq![e] + s) == match e {
            MergeResult::Right(b) => seq![b] + right_items(s),
            MergeResult::Both(_, b) => seq![b] + right_items(s),
            MergeResult::Left(_) => right_items(s),
        },
{
    assert((seq![e] + s).drop_first() =~= s);
}

/// Merging loses and duplicates nothing: the left items of the merge are the left
/// sequence and its right items are the right sequence, each in its own order.
pub proof fn lemma_merge_keeps_items<T, U>(l: Seq<(u64, T)>, r: Seq<(u64, U)>)
    ensures
        left_items(merge_keyed(l, r)) == l,
        right_items(merge_keyed(l, r)) == r,
    decreases l.len() + r.len(),
{
    if l.len() == 0 && r.len() == 0 {
        assert(left_items(merge_keyed(l, r)) =~= l);
        assert(right_items(merge_keyed(l, r)) =~= r);
    } else if l.len() == 0 || (r.len() != 0 && l[0].0 != r[0].0 && !(l[0].0 < r[0].0)) {
        lemma_merge_keeps_items(l, r.drop_first());
        lemma_left_items_cons(MergeResult::Right(r[0]), merge_keyed(l, r.drop_first()));
        assert(right_items(merge_keyed(l, r)) =~= r);
    } else if r.len() == 0 || l[0].0 < r[0].0 {
        lemma_merge_keeps_items(l.drop_first(), r);
        lemma_left_items_cons(MergeResult::Left(l[0]), merge_keyed(l.drop_first(), r));
        assert(left_items(merge_keyed(l, r)) =~= l);
    } else {
        lemma_merge_keeps_items(l.drop_first(), r.drop_first());
        lemma_left_items_cons(
            MergeResult::Both(l[0], r[0]),
            merge_keyed(l.drop_first(), r.drop_first()),
        );
        assert(left_items(merge_keyed(l, r)) =~= l);
        assert(right_items(merge_keyed(l, r)) =~= r);
    }
}

/// Every entry of a merge has a key that one of the two sequences holds.
proof fn lemma_merge_entry_keys<T, U>(l: Seq<(u64, T)>, r: Seq<(u64, U)>, k: int)
    requires
        0 <= k < merge_keyed(l, r).len(),
    ensures
        has_key(l, entry_key(merge_keyed(l, r)[k])) || has_key(r, entry_key(merge_keyed(l, r)[k])),
    decreases l.len() + r.len(),
{
    let m = merge_keyed(l, r);
    if l.len() == 0 && r.len() == 0 {
    } else if l.len() == 0 || (r.len() != 0 && l[0].0 != r[0].0 && !(l[0].0 < r[0].0)) {
        if k == 0 {
            assert(r[0].0 == entry_key(m[0]));
        } else {
            lemma_merge_entry_keys(l, r.drop_first(), k - 1);
            assert(m[k] == merge_keyed(l, r.drop_first())[k - 1]);
            if has_key(r.drop_first(), entry_key(m[k])) {
                let i = choose|i: int| 0 <= i < r.drop_first().len() && r.drop_first()[i].0 == entry_key(m[k]);
                assert(r[i + 1].0 == entry_key(m[k]));
            }
        }
    } else if r.len() == 0 || l[0].0 < r[0].0 {
        if k == 0 {
            assert(l[0].0 == entry_key(m[0]));
        } else {
            lemma_merge_entry_keys(l.drop_first(), r, k - 1);
            assert(m[k] == merge_keyed(l.drop_first(), r)[k - 1]);
            if has_key(l.drop_first(), entry_key(m[k])) {
                let i = choose|i: int| 0 <= i < l.drop_first().len() && l.drop_first()[i].0 == entry_key(m[k]);
                assert(l[i + 1].0 == entry_key(m[k]));
            }
        }
    } else {
        if k == 0 {
            assert(l[0].0 == entry_key(m[0]));
        } else {
            lemma_merge_entry_keys(l.drop_first(), r.drop_first(), k - 1);
            assert(m[k] == merge_keyed(l.drop_first(), r.drop_first())[k - 1]);
            if has_key(l.drop_first(), entry_key(m[k])) {
                let i = choose|i: int| 0 <= i < l.drop_first().len() && l.drop_first()[i].0 == entry_key(m[k]);
                assert(l[i + 1].0 == entry_key(m[k]));
            } else {
                let i = choose|i: int| 0 <= i < r.drop_first().len() && r.drop_first()[i].0 == entry_key(m[k]);
                assert(r[i + 1].0 == entry_key(m[k]));
            }
        }
    }
}

/// Merging two sequences whose keys strictly increase pairs exactly the items with
/// equal keys: a pair holds two equal keys, an unpaired item's key is missing from the
/// other side, and the keys of the merge strictly increase.
pub proof fn lemma_merge_pairs_equal_keys<T, U>(l: Seq<(u64, T)>, r: Seq<(u64, U)>)
    requires
        keys_increasing(l),
        keys_increasing(r),
    ensures
        forall|i: int, j: int|
            0 <= i < j < merge_keyed(l, r).len() ==> entry_key(#[trigger] merge_keyed(l, r)[i])
                < entry_key(#[trigger] merge_keyed(l, r)[j]),
        forall|k: int|
            0 <= k < merge_keyed(l, r).len() ==> match #[trigger] merge_keyed(l, r)[k] {
                MergeResult::Both(a, b) => a.0 == b.0,
                MergeResult::Left(a) => !has_key(r, a.0),
                MergeResult::Right(b) => !has_key(l, b.0),
            },
    decreases l.len() + r.len(),
{
    let m = merge_keyed(l, r);
    if l.len() == 0 && r.len() == 0 {
    } else {
        let (l2, r2) = if l.len() == 0 || (r.len() != 0 && l[0].0 != r[0].0 && !(l[0].0
            < r[0].0)) {
            (l, r.drop_first())
        } else if r.len() == 0 || l[0].0 < r[0].0 {
            (l.drop_first(), r)
        } else {
            (l.drop_first(), r.drop_first())
        };
        assert(keys_increasing(l2));
        assert(keys_increasing(r2));
        lemma_merge_pairs_equal_keys(l2, r2);
        let t = merge_keyed(l2, r2);
        assert(m == seq![m[0]] + t);
        // every later entry has a key above the head's
        assert forall|k: int| 0 <= k < t.len() implies entry_key(m[0]) < entry_key(#[trigger] t[k]) by {
            lemma_merge_entry_keys(l2, r2, k);
            if has_key(l2, entry_key(t[k])) {
                let i = choose|i: int| 0 <= i < l2.len() && l2[i].0 == entry_key(t[k]);
                if l2 != l {
                    assert(l2[i] == l[i + 1]);
                }
            } else {
                let i = choose|i: int| 0 <= i < r2.len() && r2[i].0 == entry_key(t[k]);
                if r2 != r {
                    assert(r2[i] == r[i + 1]);
                }
            }
        }
        assert forall|i: int, j: int| 0 <= i < j < m.len() implies entry_key(#[trigger] m[i])
            < entry_key(#[trigger] m[j]) by {
            if i == 0 {
                assert(m[j] == t[j - 1]);
            } else {
                assert(m[i] == t[i - 1]);
                assert(m[j] == t[j - 1]);
            }
        }
        assert forall|k: int| 0 <= k < m.len() implies match #[trigger] m[k] {
            MergeResult::Both(a, b) => a.0 == b.0,
            MergeResult::Left(a) => !has_key(r, a.0),
            MergeResult::Right(b) => !has_key(l, b.0),
        } by {
            if k == 0 {
                match m[0] {
                    MergeResult::Left(a) => {
                        if has_key(r, a.0) {
                            let j = choose|j: int| 0 <= j < r.len() && r[j].0 == a.0;
                            assert(r[0].0 <= r[j].0);
                        }
                    },
                    MergeResult::Right(b) => {
                        if has_key(l, b.0) {
                            let j = choose|j: int| 0 <= j < l.len() && l[j].0 == b.0;
                            assert(l[0].0 <= l[j].0);
                        }
                    },
                    _ => {},
                }
            } else {
                assert(m[k] == t[k - 1]);
                match t[k - 1] {
                    MergeResult::Left(a) => {
                        if has_key(r, a.0) {
                            let j = choose|j: int| 0 <= j < r.len() && r[j].0 == a.0;
                            if r2 != r {
                                if j > 0 {
                                    assert(r2[j - 1] == r[j]);
                                } else {
                                    assert(entry_key(m[0]) < entry_key(t[k - 1]));
                                }
                            }
                        }
                    },
                    MergeResult::Right(b) => {
                        if has_key(l, b.0) {
                            let j = choose|j: int| 0 <= j < l.len() && l[j].0 == b.0;
                            if l2 != l {
                                if j > 0 {
                                    assert(l2[j - 1] == l[j]);
                                } else {
                                    assert(entry_key(m[0]) < entry_key(t[k - 1]));
                                }
                            }
                        }
                    },
                    _ => {},
                }
            }
        }
    }
}


/// Walks two sequences of keyed items in step, yielding the merge of
/// [`merge_keyed`]: the caller gives each sequence in the order of its keys.
pub struct MergeIterator<T, U> {
    left: Vec<(u64, T)>,
    right: Vec<(u64, U)>,
    pos_left: usize,
    pos_right: usize,
}

impl<T, U> MergeIterator<T, U> {
    #[verifier::type_invariant]
    spec fn positions_in_range(&self) -> bool {
        self.pos_left <= self.left.len() && self.pos_right <= self.right.len()
    }
}

impl<T: Copy, U: Copy> MergeIterator<T, U> {
    /// The merged entries that are still to come.
    pub closed spec fn remaining(&self) -> Seq<MergeResult<(u64, T), (u64, U)>> {
        merge_keyed(
            self.left@.skip(self.pos_left as int),
            self.right@.skip(self.pos_right as int),
        )
    }

    pub fn new(iter_left: Vec<(u64, T)>, iter_right: Vec<(u64, U)>) -> (res: Self)
        ensures
            res.remaining() == merge_keyed(iter_left@, iter_right@),
    {
        let res = MergeIterator { left: iter_left, right: iter_right, pos_left: 0, pos_right: 0 };
        assert(res.left@.skip(0) =~= iter_left@);
        assert(res.right@.skip(0) =~= iter_right@);
        res
    }

    /// The next merged entry, or `None` once both sequences are done.
    pub fn next(&mut self) -> (res: Option<MergeResult<(u64, T), (u64, U)>>)
        ensures
            old(self).remaining() == match res {
                None => Seq::empty(),
                Some(e) => seq![e] + final(self).remaining(),
            },
            res is None ==> final(self).remaining() == Seq::<MergeResult<(u64, T), (u64, U)>>::empty(),
    {
        proof {
            use_type_invariant(&*self);
        }
        let ghost l = self.left@.skip(self.pos_left as int);
        let ghost r = self.right@.skip(self.pos_right as int);
        let have_left = self.pos_left < self.left.len();
        let have_right = self.pos_right < self.right.len();
        if have_left && have_right {
            let left = self.left[self.pos_left];
            let right = self.right[self.pos_right];
            assert(l[0] == left && r[0] == right);
            assert(l.drop_first() =~= self.left@.skip(self.pos_left + 1));
            assert(r.drop_first() =~= self.right@.skip(self.pos_right + 1));
            if left.0 == right.0 {
                self.pos_left = self.pos_left + 1;
                self.pos_right = self.pos_right + 1;
                Some(MergeResult::Both(left, right))
            } else if left.0 < right.0 {
                self.pos_left = self.pos_left + 1;
                Some(MergeResult::Left(left))
            } else {
                self.pos_right = self.pos_right + 1;
                Some(MergeResult::Right(right))
            }
        } else if have_left {
            let left = self.left[self.pos_left];
            assert(l[0] == left && r.len() == 0);
            assert(l.drop_first() =~= self.left@.skip(self.pos_left + 1));
            self.pos_left = self.pos_left + 1;
            Some(MergeResult::Left(left))
        } else if have_right {
            let right = self.right[self.pos_right];
            assert(r[0] == right && l.len() == 0);
            assert(r.drop_first() =~= self.right@.skip(self.pos_right + 1));
            self.pos_right = self.pos_right + 1;
            Some(MergeResult::Right(right))
        } else {
            assert(l.len() == 0 && r.len() == 0);
            None
        }
    }

    /// All the merged entries that are still to come.
    pub fn collect(self) -> (res: Vec<MergeResult<(u64, T), (u64, U)>>)
        ensures
            res@ == self.remaining(),
    {
        let mut iter = self;
        let mut res: Vec<MergeResult<(u64, T), (u64, U)>> = Vec::new();
        let ghost all = iter.remaining();
        loop
            invariant_except_break
                all == res@ + iter.remaining(),
            ensures
                all == res@,
            decreases iter.remaining().len(),
        {
            match iter.next() {
                Some(e) => {
                    res.push(e);
                    assert(all =~= res@ + iter.remaining());
                },
                None => {
                    assert(all =~= res@);
                    break ;
                },
            }
        }
        res
    }
}


/// Every entry of a merge holds items of the two sequences: its left item is an item of
/// the left sequence and its right item one of the right sequence.
pub proof fn lemma_merge_members<T, U>(l: Seq<(u64, T)>, r: Seq<(u64, U)>, k: int)
    requires
        0 <= k < merge_keyed(l, r).len(),
    ensures
        match merge_keyed(l, r)[k] {
            MergeResult::Left(a) => l.contains(a),
            MergeResult::Right(b) => r.contains(b),
            MergeResult::Both(a, b) => l.contains(a) && r.contains(b),
        },
    decreases l.len() + r.len(),
{
    let m = merge_keyed(l, r);
    if l.len() == 0 && r.len() == 0 {
    } else {
        let (l2, r2) = if l.len() == 0 || (r.len() != 0 && l[0].0 != r[0].0 && !(l[0].0
            < r[0].0)) {
            (l, r.drop_first())
        } else if r.len() == 0 || l[0].0 < r[0].0 {
            (l.drop_first(), r)
        } else {
            (l.drop_first(), r.drop_first())
        };
        if k == 0 {
            match m[0] {
                MergeResult::Left(a) => assert(l[0] == a),
                MergeResult::Right(b) => assert(r[0] == b),
                MergeResult::Both(a, b) => {
                    assert(l[0] == a);
                    assert(r[0] == b);
                },
            }
        } else {
            lemma_merge_members(l2, r2, k - 1);
            assert(m[k] == merge_keyed(l2, r2)[k - 1]);
            match m[k] {
                MergeResult::Left(a) => {
                    let i = choose|i: int| 0 <= i < l2.len() && l2[i] == a;
                    if l2 != l {
                        assert(l[i + 1] == a);
                    }
                },
                MergeResult::Right(b) => {
                    let i = choose|i: int| 0 <= i < r2.len() && r2[i] == b;
                    if r2 != r {
                        assert(r[i + 1] == b);
                    }
                },
                MergeResult::Both(a, b) => {
                    let i = choose|i: int| 0 <= i < l2.len() && l2[i] == a;
                    if l2 != l {
                        assert(l[i + 1] == a);
                    }
                    let j = choose|j: int| 0 <= j < r2.len() && r2[j] == b;
                    if r2 != r {
                        assert(r[j + 1] == b);
                    }
                },
            }
        }
    }
}

/// The left item of a merged entry, by what it names.
pub open spec fn left_name<T, U>(e: MergeResult<(u64, T), (u64, U)>) -> Option<T> {
    match e {
        MergeResult::Left(a) => Some(a.1),
        MergeResult::Both(a, _) => Some(a.1),
        MergeResult::Right(_) => None,
    }
}

/// The right item of a merged entry, by what it names.
pub open spec fn right_name<T, U>(e: MergeResult<(u64, T), (u64, U)>) -> Option<U> {
    match e {
        MergeResult::Right(b) => Some(b.1),
        MergeResult::Both(_, b) => Some(b.1),
        MergeResult::Left(_) => None,
    }
}

/// No two keyed items of the sequence name the same thing.
pub open spec fn names_distinct<T>(s: Seq<(u64, T)>) -> bool {
    forall|i: int, j: int| 0 <= i < j < s.len() ==> #[trigger] s[i].1 != #[trigger] s[j].1
}

/// Merging two sequences in which no two items name the same thing gives entries of
/// which no two name the same left item, nor the same right item.
pub proof fn lemma_merge_names_distinct<T, U>(l: Seq<(u64, T)>, r: Seq<(u64, U)>)
    requires
        names_distinct(l),
        names_distinct(r),
    ensures
        forall|i: int, j: int|
            0 <= i < j < merge_keyed(l, r).len() && left_name(#[trigger] merge_keyed(l, r)[i])
                is Some ==> left_name(merge_keyed(l, r)[i]) != left_name(
                #[trigger] merge_keyed(l, r)[j],
            ),
        forall|i: int, j: int|
            0 <= i < j < merge_keyed(l, r).len() && right_name(#[trigger] merge_keyed(l, r)[i])
                is Some ==> right_name(merge_keyed(l, r)[i]) != right_name(
                #[trigger] merge_keyed(l, r)[j],
            ),
    decreases l.len() + r.len(),
{
    let m = merge_keyed(l, r);
    if l.len() == 0 && r.len() == 0 {
    } else {
        let (l2, r2) = if l.len() == 0 || (r.len() != 0 && l[0].0 != r[0].0 && !(l[0].0
            < r[0].0)) {
            (l, r.drop_first())
        } else if r.len() == 0 || l[0].0 < r[0].0 {
            (l.drop_first(), r)
        } else {
            (l.drop_first(), r.drop_first())
        };
        assert(names_distinct(l2));
        assert(names_distinct(r2));
        lemma_merge_names_distinct(l2, r2);
        let t = merge_keyed(l2, r2);
        assert(m == seq![m[0]] + t);
        assert forall|i: int, j: int|
            0 <= i < j < m.len() && left_name(#[trigger] m[i]) is Some implies left_name(m[i])
            != left_name(#[trigger] m[j]) by {
            if i > 0 {
                assert(m[i] == t[i - 1]);
                assert(m[j] == t[j - 1]);
            } else {
                assert(m[j] == t[j - 1]);
                lemma_merge_members(l2, r2, j - 1);
                // the head's left item is l[0], and l2 is l without it
                assert(l2 == l.drop_first());
                match t[j - 1] {
                    MergeResult::Left(a) => {
                        let p = choose|p: int| 0 <= p < l2.len() && l2[p] == a;
                        assert(l[p + 1] == a);
                    },
                    MergeResult::Both(a, _) => {
                        let p = choose|p: int| 0 <= p < l2.len() && l2[p] == a;
                        assert(l[p + 1] == a);
                    },
                    MergeResult::Right(_) => {},
                }
            }
        }
        assert forall|i: int, j: int|
            0 <= i < j < m.len() && right_name(#[trigger] m[i]) is Some implies right_name(m[i])
            != right_name(#[trigger] m[j]) by {
            if i > 0 {
                assert(m[i] == t[i - 1]);
                assert(m[j] == t[j - 1]);
            } else {
                assert(m[j] == t[j - 1]);
                lemma_merge_members(l2, r2, j - 1);
                assert(r2 == r.drop_first());
                match t[j - 1] {
                    MergeResult::Right(b) => {
                        let p = choose|p: int| 0 <= p < r2.len() && r2[p] == b;
                        assert(r[p + 1] == b);
                    },
                    MergeResult::Both(_, b) => {
                        let p = choose|p: int| 0 <= p < r2.len() && r2[p] == b;
                        assert(r[p + 1] == b);
                    },
                    MergeResult::Left(_) => {},
                }
            }
        }
    }
}

/// Merging pairs only items with equal keys.
pub proof fn lemma_merge_pairs_share_key<T, U>(l: Seq<(u64, T)>, r: Seq<(u64, U)>)
    ensures
        forall|k: int|
            0 <= k < merge_keyed(l, r).len() ==> match #[trigger] merge_keyed(l, r)[k] {
                MergeResult::Both(a, b) => a.0 == b.0,
                _ => true,
            },
    decreases l.len() + r.len(),
{
    let m = merge_keyed(l, r);
    if l.len() == 0 && r.len() == 0 {
    } else {
        let (l2, r2) = if l.len() == 0 || (r.len() != 0 && l[0].0 != r[0].0 && !(l[0].0
            < r[0].0)) {
            (l, r.drop_first())
        } else if r.len() == 0 || l[0].0 < r[0].0 {
            (l.drop_first(), r)
        } else {
            (l.drop_first(), r.drop_first())
        };
        lemma_merge_pairs_share_key(l2, r2);
        let t = merge_keyed(l2, r2);
        assert(m == seq![m[0]] + t);
        assert forall|k: int| 0 <= k < m.len() implies match #[trigger] m[k] {
            MergeResult::Both(a, b) => a.0 == b.0,
            _ => true,
        } by {
            if k > 0 {
                assert(m[k] == t[k - 1]);
            }
        }
    }
}

/// The left item of a merged entry, if it has one.
pub open spec fn left_item<T, U>(e: MergeResult<T, U>) -> Option<T> {
    match e {
        MergeResult::Left(a) => Some(a),
        MergeResult::Both(a, _) => Some(a),
        MergeResult::Right(_) => None,
    }
}

/// Each left item of merged entries is the left item of one of the entries.
pub proof fn lemma_left_items_from<T, U>(s: Seq<MergeResult<T, U>>, x: T)
    requires
        left_items(s).contains(x),
    ensures
        exists|k: int| 0 <= k < s.len() && left_item(#[trigger] s[k]) == Some(x),
    decreases s.len(),
{
    let rest = s.drop_first();
    let i = choose|i: int| 0 <= i < left_items(s).len() && left_items(s)[i] == x;
    match s[0] {
        MergeResult::Right(_) => {
            assert(left_items(rest).contains(x));
            lemma_left_items_from(rest, x);
            let k = choose|k: int| 0 <= k < rest.len() && left_item(#[trigger] rest[k]) == Some(x);
            assert(s[k + 1] == rest[k]);
        },
        MergeResult::Left(a) => {
            if a != x {
                assert(left_items(s) == seq![a] + left_items(rest));
                assert(left_items(rest)[i - 1] == x);
                lemma_left_items_from(rest, x);
                let k = choose|k: int| 0 <= k < rest.len() && left_item(#[trigger] rest[k]) == Some(x);
                assert(s[k + 1] == rest[k]);
            } else {
                assert(left_item(s[0]) == Some(x));
            }
        },
        MergeResult::Both(a, _) => {
            if a != x {
                assert(left_items(s) == seq![a] + left_items(rest));
                assert(left_items(rest)[i - 1] == x);
                lemma_left_items_from(rest, x);
                let k = choose|k: int| 0 <= k < rest.len() && left_item(#[trigger] rest[k]) == Some(x);
                assert(s[k + 1] == rest[k]);
            } else {
                assert(left_item(s[0]) == Some(x));
            }
        },
    }
}

/// The right item of a merged entry, if it has one.
pub open spec fn right_item<T, U>(e: MergeResult<T, U>) -> Option<U> {
    match e {
        MergeResult::Right(b) => Some(b),
        MergeResult::Both(_, b) => Some(b),
        MergeResult::Left(_) => None,
    }
}

/// Each right item of merged entries is the right item of one of the entries.
pub proof fn lemma_right_items_from<T, U>(s: Seq<MergeResult<T, U>>, x: U)
    requires
        right_items(s).contains(x),
    ensures
        exists|k: int| 0 <= k < s.len() && right_item(#[trigger] s[k]) == Some(x),
    decreases s.len(),
{
    let rest = s.drop_first();
    let i = choose|i: int| 0 <= i < right_items(s).len() && right_items(s)[i] == x;
    match s[0] {
        MergeResult::Left(_) => {
            assert(right_items(rest).contains(x));
            lemma_right_items_from(rest, x);
            let k = choose|k: int| 0 <= k < rest.len() && right_item(#[trigger] rest[k]) == Some(x);
            assert(s[k + 1] == rest[k]);
        },
        MergeResult::Right(b) => {
            if b != x {
                assert(right_items(s) == seq![b] + right_items(rest));
                assert(right_items(rest)[i - 1] == x);
                lemma_right_items_from(rest, x);
                let k = choose|k: int| 0 <= k < rest.len() && right_item(#[trigger] rest[k]) == Some(x);
                assert(s[k + 1] == rest[k]);
            } else {
                assert(right_item(s[0]) == Some(x));
            }
        },
        MergeResult::Both(_, b) => {
            if b != x {
                assert(right_items(s) == seq![b] + right_items(rest));
                assert(right_items(rest)[i - 1] == x);
                lemma_right_items_from(rest, x);
                let k = choose|k: int| 0 <= k < rest.len() && right_item(#[trigger] rest[k]) == Some(x);
                assert(s[k + 1] == rest[k]);
            } else {
                assert(right_item(s[0]) == Some(x));
            }
        },
    }
}

/// Merging two sequences whose keys strictly increase pairs an item of the left with
/// an item of the right exactly when the two have equal keys.
pub proof fn lemma_merge_pairs_iff<T, U>(l: Seq<(u64, T)>, r: Seq<(u64, U)>, a: (u64, T), b: (u64, U))
    requires
        keys_increasing(l),
        keys_increasing(r),
    ensures
        merge_keyed(l, r).contains(MergeResult::Both(a, b)) <==> (l.contains(a) && r.contains(b)
            && a.0 == b.0),
{
    let m = merge_keyed(l, r);
    lemma_merge_pairs_equal_keys(l, r);
    if m.contains(MergeResult::Both(a, b)) {
        let k = choose|k: int| 0 <= k < m.len() && m[k] == MergeResult::Both(a, b);
        lemma_merge_members(l, r, k);
        assert(match m[k] {
            MergeResult::Both(x, y) => x.0 == y.0,
            _ => true,
        });
    }
    if l.contains(a) && r.contains(b) && a.0 == b.0 {
        lemma_merge_keeps_items(l, r);
        assert(left_items(m).contains(a));
        lemma_left_items_from(m, a);
        let k = choose|k: int| 0 <= k < m.len() && left_item(#[trigger] m[k]) == Some(a);
        let j = choose|j: int| 0 <= j < r.len() && r[j] == b;
        lemma_merge_members(l, r, k);
        match m[k] {
            MergeResult::Left(x) => {
                assert(x == a);
                assert(has_key(r, a.0));
            },
            MergeResult::Both(x, y) => {
                assert(x == a);
                let i = choose|i: int| 0 <= i < r.len() && r[i] == y;
                assert(r[i].0 == r[j].0);
                if i < j {
                    assert(r[i].0 < r[j].0);
                } else if j < i {
                    assert(r[j].0 < r[i].0);
                }
                assert(m[k] == MergeResult::Both(a, b));
            },
            MergeResult::Right(_) => {},
        }
    }
}

/// The items of merged entries with one more entry: those before, then the new entry's.
pub proof fn lemma_items_push<T, U>(s: Seq<MergeResult<T, U>>, e: MergeResult<T, U>)
    ensures
        left_items(s.push(e)) == left_items(s) + match e {
            MergeResult::Left(a) => seq![a],
            MergeResult::Both(a, _) => seq![a],
            MergeResult::Right(_) => Seq::<T>::empty(),
        },
        right_items(s.push(e)) == right_items(s) + match e {
            MergeResult::Right(b) => seq![b],
            MergeResult::Both(_, b) => seq![b],
            MergeResult::Left(_) => Seq::<U>::empty(),
        },
    decreases s.len(),
{
    if s.len() == 0 {
        assert(s.push(e) =~= seq![e]);
        assert(seq![e].drop_first() =~= Seq::<MergeResult<T, U>>::empty());
        assert(left_items(Seq::<MergeResult<T, U>>::empty()) =~= Seq::<T>::empty());
        assert(right_items(Seq::<MergeResult<T, U>>::empty()) =~= Seq::<U>::empty());
        assert(left_items(s.push(e)) =~= left_items(s) + match e {
            MergeResult::Left(a) => seq![a],
            MergeResult::Both(a, _) => seq![a],
            MergeResult::Right(_) => Seq::<T>::empty(),
        });
        assert(right_items(s.push(e)) =~= right_items(s) + match e {
            MergeResult::Right(b) => seq![b],
            MergeResult::Both(_, b) => seq![b],
            MergeResult::Left(_) => Seq::<U>::empty(),
        });
    } else {
        lemma_items_push(s.drop_first(), e);
        assert(s.push(e).drop_first() =~= s.drop_first().push(e));
        assert(s.push(e)[0] == s[0]);
        assert(left_items(s.push(e)) =~= left_items(s) + match e {
            MergeResult::Left(a) => seq![a],
            MergeResult::Both(a, _) => seq![a],
            MergeResult::Right(_) => Seq::<T>::empty(),
        });
        assert(right_items(s.push(e)) =~= right_items(s) + match e {
            MergeResult::Right(b) => seq![b],
            MergeResult::Both(_, b) => seq![b],
            MergeResult::Left(_) => Seq::<U>::empty(),
        });
    }
}

/// Merging a sequence with itself pairs each item with itself.
pub proof fn lemma_merge_self<T>(l: Seq<(u64, T)>)
    ensures
        merge_keyed(l, l) == Seq::new(l.len(), |i: int| MergeResult::Both(l[i], l[i])),
    decreases l.len(),
{
    if l.len() == 0 {
        assert(merge_keyed(l, l) =~= Seq::new(l.len(), |i: int| MergeResult::Both(l[i], l[i])));
    } else {
        let rest = l.drop_first();
        lemma_merge_self(rest);
        assert(merge_keyed(l, l) =~= Seq::new(l.len(), |i: int| MergeResult::Both(l[i], l[i])));
    }
}

}
