use vstd::prelude::*;
use crate::order::{lemma_str_lt_order, str_less, str_lt};

verus! {

/// The leaderboard's size when none is asked, and its smallest size.
pub const DEFAULT_LEADERBOARD_LIMIT: u32 = 30;

/// A stored rating: the category, the rated address and the rating's value
/// in decimal atomics.
#[derive(Debug)]
pub struct RatingEntry {
    pub category_id: u128,
    pub addr: String,
    pub value: u128,
}

/// The key by which the ratings index orders an entry.
pub open spec fn rating_key(e: RatingEntry) -> (u128, u128, Seq<char>) {
    (e.value, e.category_id, e.addr@)
}

/// The index order: by value, then category, then address.
pub open spec fn key_lt(a: (u128, u128, Seq<char>), b: (u128, u128, Seq<char>)) -> bool {
    a.0 < b.0 || (a.0 == b.0 && (a.1 < b.1 || (a.1 == b.1 && str_lt(a.2, b.2))))
}

/// The index order is a strict total order.
pub proof fn lemma_key_order(a: (u128, u128, Seq<char>), b: (u128, u128, Seq<char>), c: (u128, u128, Seq<char>))
    ensures
        !key_lt(a, a),
        a != b ==> key_lt(a, b) || key_lt(b, a),
        !(key_lt(a, b) && key_lt(b, a)),
        key_lt(a, b) && key_lt(b, c) ==> key_lt(a, c),
{
    lemma_str_lt_order(a.2, b.2, c.2);
}

/// No category rates an address twice.
pub open spec fn ratings_unique(s: Seq<RatingEntry>) -> bool {
    forall|i: int, j: int|
        0 <= i < s.len() && 0 <= j < s.len() && i != j ==> s[i].category_id != s[j].category_id || s[i].addr@ != s[j].addr@
}

/// The rating of `a` in category `c`, if any.
pub open spec fn rating_in(s: Seq<RatingEntry>, c: u128, a: Seq<char>) -> Option<u128>
    decreases s.len(),
{
    if s.len() == 0 {
        None
    } else if s.last().category_id == c && s.last().addr@ == a {
        Some(s.last().value)
    } else {
        rating_in(s.drop_last(), c, a)
    }
}

/// Rewriting the value of one entry changes the rating of its key alone.
proof fn lemma_rating_update(s: Seq<RatingEntry>, i: int, e: RatingEntry)
    requires
        ratings_unique(s),
        0 <= i < s.len(),
        e.category_id == s[i].category_id,
        e.addr@ == s[i].addr@,
    ensures
        ratings_unique(s.update(i, e)),
        forall|c: u128, a: Seq<char>| #[trigger] rating_in(s.update(i, e), c, a) == if c == e.category_id && a == e.addr@ {
            Some(e.value)
        } else {
            rating_in(s, c, a)
        },
    decreases s.len(),
{
    let t = s.update(i, e);
    assert forall|x: int, y: int|
        0 <= x < t.len() && 0 <= y < t.len() && x != y implies t[x].category_id != t[y].category_id || t[x].addr@
            != t[y].addr@ by {
        assert(s[x].category_id != s[y].category_id || s[x].addr@ != s[y].addr@);
    }
    if i < s.len() - 1 {
        let d = s.drop_last();
        assert(ratings_unique(d));
        lemma_rating_update(d, i, e);
        assert(t.drop_last() =~= d.update(i, e));
        assert(t.last() == s.last());
        assert(s.last().category_id != e.category_id || s.last().addr@ != e.addr@) by {
            assert(s[s.len() - 1].category_id != s[i].category_id || s[s.len() - 1].addr@ != s[i].addr@);
        }
        assert forall|c: u128, a: Seq<char>| #[trigger] rating_in(t, c, a) == if c == e.category_id && a == e.addr@ {
            Some(e.value)
        } else {
            rating_in(s, c, a)
        } by {
            assert(rating_in(d.update(i, e), c, a) == if c == e.category_id && a == e.addr@ {
                Some(e.value)
            } else {
                rating_in(d, c, a)
            });
        }
    } else {
        assert(t.drop_last() =~= s.drop_last());
        assert(t.last() == e);
        assert forall|c: u128, a: Seq<char>| #[trigger] rating_in(t, c, a) == if c == e.category_id && a == e.addr@ {
            Some(e.value)
        } else {
            rating_in(s, c, a)
        } by {
            assert(rating_in(t.drop_last(), c, a) == rating_in(s.drop_last(), c, a));
        }
    }
}

/// Sets the rating of `addr` in `category_id` to `value`, adding it when
/// there is none; no other rating changes.
pub fn set_rating(ratings: &mut Vec<RatingEntry>, category_id: u128, addr: &String, value: u128)
    requires
        ratings_unique(old(ratings)@),
    ensures
        ratings_unique(final(ratings)@),
        forall|c: u128, a: Seq<char>| #[trigger] rating_in(final(ratings)@, c, a) == if c == category_id && a == addr@ {
            Some(value)
        } else {
            rating_in(old(ratings)@, c, a)
        },
{
    let ghost s = ratings@;
    let mut i: usize = 0;
    while i < ratings.len()
        invariant
            ratings@ == s,
            s == old(ratings)@,
            ratings_unique(s),
            i <= s.len(),
            forall|j: int| 0 <= j < i ==> !(s[j].category_id == category_id && s[j].addr@ == addr@),
        decreases s.len() - i,
    {
        if ratings[i].category_id == category_id && ratings[i].addr == *addr {
            let e = RatingEntry { category_id, addr: addr.clone(), value };
            let ghost ge = e;
            ratings.set(i, e);
            proof {
                lemma_rating_update(s, i as int, ge);
                assert(ratings@ =~= s.update(i as int, ge));
            }
            return;
        }
        i = i + 1;
    }
    let e = RatingEntry { category_id, addr: addr.clone(), value };
    let ghost ge = e;
    ratings.push(e);
    proof {
        let t = ratings@;
        assert(t.drop_last() =~= s);
        assert(t.last() == ge);
        assert forall|x: int, y: int|
            0 <= x < t.len() && 0 <= y < t.len() && x != y implies t[x].category_id != t[y].category_id || t[x].addr@
                != t[y].addr@ by {
            if x < s.len() && y < s.len() {
                assert(s[x].category_id != s[y].category_id || s[x].addr@ != s[y].addr@);
            }
        }
    }
}

/// The rating of `addr` in category `category_id`, if it has one.
pub fn find_rating(ratings: &Vec<RatingEntry>, category_id: u128, addr: &String) -> (r: Option<u128>)
    requires
        ratings_unique(ratings@),
    ensures
        r == rating_in(ratings@, category_id, addr@),
{
    let ghost s = ratings@;
    let mut i: usize = ratings.len();
    assert(s.take(s.len() as int) =~= s);
    while i > 0
        invariant
            s == ratings@,
            i <= s.len(),
            rating_in(s, category_id, addr@) == rating_in(s.take(i as int), category_id, addr@),
        decreases i,
    {
        i = i - 1;
        assert(s.take(i + 1).drop_last() =~= s.take(i as int));
        assert(s.take(i + 1).last() == s[i as int]);
        if ratings[i].category_id == category_id && ratings[i].addr == *addr {
            return Some(ratings[i].value);
        }
    }
    assert(s.take(0) =~= Seq::<RatingEntry>::empty());
    None
}

/// The last value that `updates` give `a`, if any.
pub open spec fn last_update(updates: Seq<(String, u128)>, a: Seq<char>) -> Option<u128>
    decreases updates.len(),
{
    if updates.len() == 0 {
        None
    } else if updates.last().0@ == a {
        Some(updates.last().1)
    } else {
        last_update(updates.drop_last(), a)
    }
}

/// Stores new ratings in category `category_id`, in order: each address
/// ends with the last value given to it; no other rating changes.
pub fn apply_ratings(ratings: &mut Vec<RatingEntry>, category_id: u128, updates: &Vec<(String, u128)>)
    requires
        ratings_unique(old(ratings)@),
    ensures
        ratings_unique(final(ratings)@),
        forall|c: u128, a: Seq<char>| #[trigger] rating_in(final(ratings)@, c, a) == if c == category_id && last_update(
            updates@,
            a,
        ) is Some {
            last_update(updates@, a)
        } else {
            rating_in(old(ratings)@, c, a)
        },
{
    let ghost s0 = ratings@;
    let mut i: usize = 0;
    while i < updates.len()
        invariant
            i <= updates.len(),
            ratings_unique(ratings@),
            forall|c: u128, a: Seq<char>| #[trigger] rating_in(ratings@, c, a) == if c == category_id && last_update(
                updates@.take(i as int),
                a,
            ) is Some {
                last_update(updates@.take(i as int), a)
            } else {
                rating_in(s0, c, a)
            },
        decreases updates.len() - i,
    {
        let (addr, value) = &updates[i];
        set_rating(ratings, category_id, addr, *value);
        proof {
            assert(updates@.take(i + 1).drop_last() =~= updates@.take(i as int));
            assert(updates@.take(i + 1).last() == updates@[i as int]);
        }
        i = i + 1;
    }
    proof {
        assert(updates@.take(updates.len() as int) =~= updates@);
    }
}

/// Whether a key lies beyond the start of the leaderboard.
pub open spec fn above_start(k: (u128, u128, Seq<char>), start: Option<(u128, u128, Seq<char>)>) -> bool {
    match start {
        Some(b) => key_lt(b, k),
        None => true,
    }
}

/// The start of a leaderboard: a value and an address, placed in a category.
pub open spec fn start_key(category_id: u128, start_after: Option<(u128, String)>) -> Option<(u128, u128, Seq<char>)> {
    match start_after {
        Some(p) => Some((p.0, category_id, p.1@)),
        None => None,
    }
}

/// The size of a leaderboard: the one asked, or the default, but never below
/// the default.
pub open spec fn leaderboard_size(limit: Option<u32>) -> nat {
    let l = match limit {
        Some(x) => x,
        None => DEFAULT_LEADERBOARD_LIMIT,
    };
    if l < DEFAULT_LEADERBOARD_LIMIT {
        DEFAULT_LEADERBOARD_LIMIT as nat
    } else {
        l as nat
    }
}

/// `board` is the leaderboard of `s` beyond `start` of size `n`: entries of
/// `s` beyond the start, in strictly descending index order, and every
/// other entry beyond the start ranks below the last of them, the board
/// being full.
pub open spec fn is_leaderboard(
    s: Seq<RatingEntry>,
    start: Option<(u128, u128, Seq<char>)>,
    n: nat,
    board: Seq<&RatingEntry>,
) -> bool {
    &&& board.len() <= n
    &&& forall|i: int, j: int| 0 <= i < j < board.len() ==> key_lt(rating_key(*board[j]), rating_key(*board[i]))
    &&& forall|i: int| #![trigger board[i]]
        0 <= i < board.len() ==> (exists|j: int| 0 <= j < s.len() && s[j] == *board[i]) && above_start(rating_key(*board[i]), start)
    &&& forall|j: int| #![trigger s[j]]
        0 <= j < s.len() && above_start(rating_key(s[j]), start) && !(exists|i: int| 0 <= i < board.len() && *board[i] == s[j])
            ==> board.len() == n && n > 0 && key_lt(rating_key(s[j]), rating_key(*board[board.len() - 1]))
}

/// The size of a leaderboard asked with `limit`.
pub fn leaderboard_limit(limit: Option<u32>) -> (r: u32)
    ensures
        r == leaderboard_size(limit),
{
    let l = match limit {
        Some(x) => x,
        None => DEFAULT_LEADERBOARD_LIMIT,
    };
    if l < DEFAULT_LEADERBOARD_LIMIT {
        DEFAULT_LEADERBOARD_LIMIT
    } else {
        l
    }
}

/// Whether `a` comes before `b` in the index order.
fn key_less(a: &RatingEntry, b: &RatingEntry) -> (r: bool)
    ensures
        r == key_lt(rating_key(*a), rating_key(*b)),
{
    if a.value != b.value {
        a.value < b.value
    } else if a.category_id != b.category_id {
        a.category_id < b.category_id
    } else {
        str_less(&a.addr, &b.addr)
    }
}

/// Whether `e` lies beyond the start (`start_after` placed in `category_id`).
fn beyond_start(e: &RatingEntry, category_id: u128, start_after: &Option<(u128, String)>) -> (r: bool)
    ensures
        r == above_start(rating_key(*e), start_key(category_id, *start_after)),
{
    match start_after {
        None => true,
        Some(p) => {
            if p.0 != e.value {
                p.0 < e.value
            } else if category_id != e.category_id {
                category_id < e.category_id
            } else {
                str_less(&p.1, &e.addr)
            }
        },
    }
}

/// The positions in `order` run in strictly descending index order.
pub open spec fn descending(s: Seq<RatingEntry>, order: Seq<usize>) -> bool {
    &&& forall|i: int| 0 <= i < order.len() ==> (#[trigger] order[i]) < s.len()
    &&& forall|i: int, j: int| 0 <= i < j < order.len() ==> key_lt(rating_key(s[#[trigger] order[j] as int]), rating_key(s[#[trigger] order[i] as int]))
}

/// Inserts position `x` into `order`, keeping it descending.
fn insert_descending(order: &mut Vec<usize>, ratings: &Vec<RatingEntry>, x: usize)
    requires
        ratings_unique(ratings@),
        x < ratings.len(),
        descending(ratings@, old(order)@),
        !old(order)@.contains(x),
    ensures
        descending(ratings@, final(order)@),
        final(order)@.len() == old(order)@.len() + 1,
        forall|y: usize| #[trigger] final(order)@.contains(y) == (old(order)@.contains(y) || y == x),
{
    let ghost s = order@;
    let ghost rs = ratings@;
    let ghost kx = rating_key(rs[x as int]);
    let mut i: usize = 0;
    let mut found = false;
    while i < order.len() && !found
        invariant
            order@ == s,
            rs == ratings@,
            i <= s.len(),
            descending(rs, s),
            x < rs.len(),
            kx == rating_key(rs[x as int]),
            forall|j: int| 0 <= j < i ==> key_lt(kx, rating_key(rs[#[trigger] s[j] as int])),
            found ==> i < s.len() && !key_lt(kx, rating_key(rs[s[i as int] as int])),
        decreases s.len() - i, if found { 0int } else { 1int },
    {
        if !key_less(&ratings[x], &ratings[order[i]]) {
            found = true;
        } else {
            i = i + 1;
        }
    }
    proof {
        if i < s.len() {
            let y = s[i as int];
            assert(y != x) by {
                if y == x {
                    assert(s.contains(x));
                }
            }
            assert(rs[y as int].category_id != rs[x as int].category_id || rs[y as int].addr@ != rs[x as int].addr@);
            lemma_key_order(rating_key(rs[y as int]), kx, kx);
            assert(key_lt(rating_key(rs[y as int]), kx));
        }
    }
    order.insert(i, x);
    proof {
        let t = order@;
        assert(t =~= s.insert(i as int, x));
        assert forall|a: int, b: int| 0 <= a < b < t.len() implies key_lt(
            rating_key(rs[#[trigger] t[b] as int]),
            rating_key(rs[#[trigger] t[a] as int]),
        ) by {
            if b < i {
                assert(t[a] == s[a] && t[b] == s[b]);
            } else if b == i {
                assert(t[a] == s[a]);
            } else if a < i {
                assert(t[a] == s[a] && t[b] == s[b - 1]);
                let ka = rating_key(rs[s[a] as int]);
                let ki = rating_key(rs[s[i as int] as int]);
                let kb = rating_key(rs[s[b - 1] as int]);
                if b - 1 > i {
                    lemma_key_order(kb, ki, kx);
                }
                lemma_key_order(kb, kx, ka);
            } else if a == i {
                assert(t[b] == s[b - 1]);
                let ki = rating_key(rs[s[i as int] as int]);
                let kb = rating_key(rs[s[b - 1] as int]);
                if b - 1 > i {
                    lemma_key_order(kb, ki, kx);
                }
            } else {
                assert(t[a] == s[a - 1] && t[b] == s[b - 1]);
            }
        }
        assert forall|a: int| 0 <= a < t.len() implies (#[trigger] t[a]) < rs.len() by {
            if a < i {
                assert(t[a] == s[a]);
            } else if a > i {
                assert(t[a] == s[a - 1]);
            }
        }
        assert forall|y: usize| #[trigger] t.contains(y) == (s.contains(y) || y == x) by {
            if t.contains(y) {
                let k = choose|k: int| 0 <= k < t.len() && t[k] == y;
                if k < i {
                    assert(t[k] == s[k]);
                } else if k > i {
                    assert(t[k] == s[k - 1]);
                }
            }
            if s.contains(y) {
                let k = choose|k: int| 0 <= k < s.len() && s[k] == y;
                if k < i {
                    assert(t[k] == s[k]);
                } else {
                    assert(t[k + 1] == s[k]);
                }
            }
            if y == x {
                assert(t[i as int] == x);
            }
        }
    }
}

/// The first `n` positions of a descending list of every entry beyond the
/// start make the leaderboard.
proof fn lemma_board(
    rs: Seq<RatingEntry>,
    start: Option<(u128, u128, Seq<char>)>,
    os: Seq<usize>,
    n: nat,
    board: Seq<&RatingEntry>,
)
    requires
        rs.len() <= usize::MAX,
        n > 0,
        descending(rs, os),
        forall|y: usize| #[trigger] os.contains(y) == (y < rs.len() && above_start(rating_key(rs[y as int]), start)),
        board.len() == if n < os.len() { n } else { os.len() },
        forall|x: int| #![trigger board[x]] 0 <= x < board.len() ==> *board[x] == rs[os[x] as int],
    ensures
        is_leaderboard(rs, start, n, board),
{
    assert forall|a: int, b: int| 0 <= a < b < board.len() implies key_lt(rating_key(*board[b]), rating_key(*board[a])) by {
        assert(*board[a] == rs[os[a] as int]);
        assert(*board[b] == rs[os[b] as int]);
    }
    assert forall|x: int| #![trigger board[x]] 0 <= x < board.len() implies (exists|j: int| 0 <= j < rs.len() && rs[j]
        == *board[x]) && above_start(rating_key(*board[x]), start) by {
        let j = os[x] as int;
        assert(0 <= j < rs.len() && rs[j] == *board[x]);
        assert(os.contains(os[x]));
    }
    assert forall|j: int| #![trigger rs[j]]
        0 <= j < rs.len() && above_start(rating_key(rs[j]), start) && !(exists|x: int| 0 <= x < board.len() && *board[x]
            == rs[j]) implies board.len() == n && n > 0 && key_lt(rating_key(rs[j]), rating_key(*board[board.len() - 1])) by {
        assert(os.contains(j as usize));
        let p = choose|p: int| 0 <= p < os.len() && os[p] == j as usize;
        if p < board.len() {
            assert(*board[p] == rs[os[p] as int]);
            assert(*board[p] == rs[j]);
            assert(false);
        }
        assert(*board[board.len() - 1] == rs[os[board.len() - 1] as int]);
    }
}

/// The rating leaderboard: the stored ratings beyond `start_after` (a value
/// and an address, placed in `category_id`), highest first by value, then
/// category, then address, as many as `leaderboard_size(limit)`. Ratings of
/// every category are ranked together; the category only places the start.
pub fn rating_leaderboard<'a>(
    ratings: &'a Vec<RatingEntry>,
    category_id: u128,
    start_after: Option<(u128, String)>,
    limit: Option<u32>,
) -> (r: Vec<&'a RatingEntry>)
    requires
        ratings_unique(ratings@),
    ensures
        is_leaderboard(ratings@, start_key(category_id, start_after), leaderboard_size(limit), r@),
{
    let ghost rs = ratings@;
    let ghost start = start_key(category_id, start_after);
    let mut order: Vec<usize> = Vec::new();
    let mut i: usize = 0;
    while i < ratings.len()
        invariant
            rs == ratings@,
            ratings_unique(rs),
            i <= rs.len(),
            start == start_key(category_id, start_after),
            descending(rs, order@),
            forall|y: usize| #[trigger] order@.contains(y) == (y < i && above_start(rating_key(rs[y as int]), start)),
        decreases rs.len() - i,
    {
        if beyond_start(&ratings[i], category_id, &start_after) {
            insert_descending(&mut order, ratings, i);
        }
        i = i + 1;
    }
    let n = leaderboard_limit(limit) as usize;
    let take = if n < order.len() {
        n
    } else {
        order.len()
    };
    let ghost os = order@;
    let mut out: Vec<&RatingEntry> = Vec::new();
    let mut k: usize = 0;
    while k < take
        invariant
            rs == ratings@,
            os == order@,
            take <= os.len(),
            k <= take,
            descending(rs, os),
            out@.len() == k,
            forall|x: int| #![trigger out@[x]] 0 <= x < k ==> *out@[x] == rs[os[x] as int],
        decreases take - k,
    {
        let ghost before = out@;
        out.push(&ratings[order[k]]);
        proof {
            assert forall|x: int| #![trigger out@[x]] 0 <= x < k + 1 implies *out@[x] == rs[os[x] as int] by {
                if x < k {
                    assert(out@[x] == before[x]);
                }
            }
        }
        k = k + 1;
    }
    proof {
        lemma_board(rs, start, os, n as nat, out@);
    }
    out
}

} // verus!
