//! The leaderboard: profiles ranked by points, and the text of a page of
//! ten entries that starts at a given position.
use vstd::prelude::*;

use crate::participation::Nine92er;
use crate::text::{decimal, push_char, sanitize_username, sanitized, u64_to_decimal};

verus! {

broadcast use vstd::seq_lib::group_to_multiset_ensures;

// ---------------------------------------------------------------------------
// Ranking
// ---------------------------------------------------------------------------

/// `x` placed into `t` after every leading entry with at least as many
/// points as `x`.
pub open spec fn ranked_insert(t: Seq<Nine92er>, x: Nine92er) -> Seq<Nine92er>
    decreases t.len(),
{
    if t.len() == 0 {
        seq![x]
    } else if t[0].half_points >= x.half_points {
        seq![t[0]] + ranked_insert(t.drop_first(), x)
    } else {
        seq![x] + t
    }
}

/// The profiles in leaderboard order: by points, most first; among equal
/// points, the one that came later in `s` first. (This is the order of a
/// stable ascending sort by points followed by a reversal.)
pub open spec fn ranking(s: Seq<Nine92er>) -> Seq<Nine92er>
    decreases s.len(),
{
    if s.len() == 0 {
        Seq::empty()
    } else {
        ranked_insert(ranking(s.drop_first()), s[0])
    }
}

/// Points never increase along `s`.
pub open spec fn sorted_by_points(s: Seq<Nine92er>) -> bool {
    forall|i: int, j: int| 0 <= i < j < s.len() ==> #[trigger] s[i].half_points >= #[trigger] s[j].half_points
}

/// No entry of `s` has more than `b` half-points.
pub open spec fn points_at_most(s: Seq<Nine92er>, b: int) -> bool {
    forall|i: int| 0 <= i < s.len() ==> #[trigger] s[i].half_points <= b
}

proof fn lemma_ranked_insert_at(t: Seq<Nine92er>, x: Nine92er, k: int)
    requires
        0 <= k <= t.len(),
        forall|j: int| 0 <= j < k ==> #[trigger] t[j].half_points >= x.half_points,
        k < t.len() ==> t[k].half_points < x.half_points,
    ensures
        ranked_insert(t, x) == t.insert(k, x),
    decreases k,
{
    if k == 0 {
        assert(t.insert(0, x) =~= seq![x] + t);
    } else {
        let r = t.drop_first();
        assert forall|j: int| 0 <= j < k - 1 implies #[trigger] r[j].half_points >= x.half_points by {
            assert(r[j] == t[j + 1]);
        }
        assert(k - 1 < r.len() ==> r[k - 1] == t[k]);
        lemma_ranked_insert_at(r, x, k - 1);
        assert(seq![t[0]] + r.insert(k - 1, x) =~= t.insert(k, x));
    }
}

proof fn lemma_ranked_insert_multiset(t: Seq<Nine92er>, x: Nine92er)
    ensures
        ranked_insert(t, x).to_multiset() == t.to_multiset().insert(x),
    decreases t.len(),
{
    if t.len() == 0 {
        assert(seq![x] =~= t.insert(0, x));
    } else if t[0].half_points >= x.half_points {
        let r = t.drop_first();
        lemma_ranked_insert_multiset(r, x);
        let ri = ranked_insert(r, x);
        assert(seq![t[0]] + ri =~= ri.insert(0, t[0]));
        assert(seq![t[0]] + r =~= t);
        assert(r.insert(0, t[0]) =~= t);
        assert(ri.insert(0, t[0]).to_multiset() == ri.to_multiset().insert(t[0]));
        assert(r.insert(0, t[0]).to_multiset() == r.to_multiset().insert(t[0]));
        assert(ranked_insert(t, x).to_multiset() =~= t.to_multiset().insert(x));
    } else {
        assert(seq![x] + t =~= t.insert(0, x));
    }
}

proof fn lemma_ranked_insert_bounded(t: Seq<Nine92er>, x: Nine92er, b: int)
    requires
        points_at_most(t, b),
        x.half_points <= b,
    ensures
        points_at_most(ranked_insert(t, x), b),
    decreases t.len(),
{
    if t.len() > 0 && t[0].half_points >= x.half_points {
        let r = t.drop_first();
        assert forall|i: int| 0 <= i < r.len() implies #[trigger] r[i].half_points <= b by {
            assert(r[i] == t[i + 1]);
        }
        lemma_ranked_insert_bounded(r, x, b);
        let s = ranked_insert(t, x);
        assert forall|i: int| 0 <= i < s.len() implies #[trigger] s[i].half_points <= b by {
            if i > 0 {
                assert(s[i] == ranked_insert(r, x)[i - 1]);
            }
        }
    } else if t.len() > 0 {
        let s = ranked_insert(t, x);
        assert forall|i: int| 0 <= i < s.len() implies #[trigger] s[i].half_points <= b by {
            if i > 0 {
                assert(s[i] == t[i - 1]);
            }
        }
    }
}

proof fn lemma_ranked_insert_sorted(t: Seq<Nine92er>, x: Nine92er)
    requires
        sorted_by_points(t),
    ensures
        sorted_by_points(ranked_insert(t, x)),
    decreases t.len(),
{
    if t.len() > 0 {
        let s = ranked_insert(t, x);
        let r = t.drop_first();
        if t[0].half_points >= x.half_points {
            assert forall|i: int, j: int| 0 <= i < j < r.len() implies #[trigger] r[i].half_points
                >= #[trigger] r[j].half_points by {
                assert(r[i] == t[i + 1] && r[j] == t[j + 1]);
            }
            lemma_ranked_insert_sorted(r, x);
            assert forall|i: int| 0 <= i < r.len() implies #[trigger] r[i].half_points
                <= t[0].half_points by {
                assert(r[i] == t[i + 1]);
            }
            lemma_ranked_insert_bounded(r, x, t[0].half_points as int);
            let ri = ranked_insert(r, x);
            assert forall|i: int, j: int| 0 <= i < j < s.len() implies #[trigger] s[i].half_points
                >= #[trigger] s[j].half_points by {
                assert(s[j] == ri[j - 1]);
                if i > 0 {
                    assert(s[i] == ri[i - 1]);
                }
            }
        } else {
            assert forall|i: int, j: int| 0 <= i < j < s.len() implies #[trigger] s[i].half_points
                >= #[trigger] s[j].half_points by {
                assert(s[j] == t[j - 1]);
                if i > 0 {
                    assert(s[i] == t[i - 1]);
                }
            }
        }
    }
}

/// The leaderboard order puts the profiles with the most points first.
pub proof fn lemma_ranking_sorted(s: Seq<Nine92er>)
    ensures
        sorted_by_points(ranking(s)),
    decreases s.len(),
{
    if s.len() > 0 {
        lemma_ranking_sorted(s.drop_first());
        lemma_ranked_insert_sorted(ranking(s.drop_first()), s[0]);
    }
}

/// The leaderboard order neither drops nor adds nor repeats a profile: it
/// holds the same profiles, each as often, as the list it was made from.
pub proof fn lemma_ranking_permutation(s: Seq<Nine92er>)
    ensures
        ranking(s).to_multiset() == s.to_multiset(),
        ranking(s).len() == s.len(),
    decreases s.len(),
{
    if s.len() > 0 {
        let r = s.drop_first();
        lemma_ranking_permutation(r);
        lemma_ranked_insert_multiset(ranking(r), s[0]);
        assert(r.insert(0, s[0]) =~= s);
        assert(r.insert(0, s[0]).to_multiset() == r.to_multiset().insert(s[0]));
        assert(ranking(s).len() == ranking(s).to_multiset().len());
        assert(s.len() == s.to_multiset().len());
    }
}

/// Whether a profile has exactly `v` half-points.
pub open spec fn has_points(v: int) -> spec_fn(Nine92er) -> bool {
    |e: Nine92er| e.half_points == v
}

proof fn lemma_filter_none_above(t: Seq<Nine92er>, v: int)
    requires
        forall|i: int| 0 <= i < t.len() ==> #[trigger] t[i].half_points < v,
    ensures
        t.filter(has_points(v)) == Seq::<Nine92er>::empty(),
    decreases t.len(),
{
    if t.len() > 0 {
        let r = t.drop_first();
        assert forall|i: int| 0 <= i < r.len() implies #[trigger] r[i].half_points < v by {
            assert(r[i] == t[i + 1]);
        }
        lemma_filter_none_above(r, v);
        r.lemma_filter_prepend(t[0], has_points(v));
        assert(seq![t[0]] + r =~= t);
        assert(t[0].half_points < v);
        assert(t.filter(has_points(v)) =~= Seq::<Nine92er>::empty());
    }
}

proof fn lemma_ranked_insert_filter(t: Seq<Nine92er>, x: Nine92er, v: int)
    requires
        sorted_by_points(t),
    ensures
        ranked_insert(t, x).filter(has_points(v)) == if x.half_points == v {
            t.filter(has_points(v)).push(x)
        } else {
            t.filter(has_points(v))
        },
    decreases t.len(),
{
    let p = has_points(v);
    if t.len() == 0 {
        Seq::<Nine92er>::empty().lemma_filter_prepend(x, p);
        assert(t =~= Seq::<Nine92er>::empty());
        reveal(Seq::filter);
        assert(Seq::<Nine92er>::empty().filter(p) =~= Seq::<Nine92er>::empty());
        assert(seq![x] + Seq::<Nine92er>::empty() =~= seq![x]);
        assert(Seq::<Nine92er>::empty().push(x) =~= seq![x]);
    } else {
        let r = t.drop_first();
        assert(seq![t[0]] + r =~= t);
        r.lemma_filter_prepend(t[0], p);
        if t[0].half_points >= x.half_points {
            assert forall|i: int, j: int| 0 <= i < j < r.len() implies #[trigger] r[i].half_points
                >= #[trigger] r[j].half_points by {
                assert(r[i] == t[i + 1] && r[j] == t[j + 1]);
            }
            lemma_ranked_insert_filter(r, x, v);
            let ri = ranked_insert(r, x);
            ri.lemma_filter_prepend(t[0], p);
            let head = if p(t[0]) {
                seq![t[0]]
            } else {
                Seq::<Nine92er>::empty()
            };
            if x.half_points == v {
                assert(head + r.filter(p).push(x) =~= (head + r.filter(p)).push(x));
            }
        } else {
            t.lemma_filter_prepend(x, p);
            if x.half_points == v {
                assert forall|i: int| 0 <= i < t.len() implies #[trigger] t[i].half_points < v by {
                    if i > 0 {
                        assert(t[0].half_points >= t[i].half_points);
                    }
                }
                lemma_filter_none_above(t, v);
                assert(seq![x] + Seq::<Nine92er>::empty() =~= Seq::<Nine92er>::empty().push(x));
            } else {
                assert(Seq::<Nine92er>::empty() + t.filter(p) =~= t.filter(p));
            }
        }
    }
}

/// Among profiles with the same points, the leaderboard shows the one that
/// came later in the list first: for any number of points, the profiles
/// with exactly that many appear in the reverse of their order in the list.
pub proof fn lemma_ranking_ties_reversed(s: Seq<Nine92er>, v: int)
    ensures
        ranking(s).filter(has_points(v)) == s.filter(has_points(v)).reverse(),
    decreases s.len(),
{
    let p = has_points(v);
    if s.len() == 0 {
        reveal(Seq::filter);
        assert(ranking(s) =~= s);
        assert(s.filter(p) =~= s);
        assert(s.filter(p).reverse() =~= s);
    } else {
        let r = s.drop_first();
        lemma_ranking_ties_reversed(r, v);
        lemma_ranking_sorted(r);
        lemma_ranked_insert_filter(ranking(r), s[0], v);
        r.lemma_filter_prepend(s[0], p);
        assert(seq![s[0]] + r =~= s);
        let fr = r.filter(p);
        if s[0].half_points == v {
            assert((seq![s[0]] + fr).reverse() =~= fr.reverse().push(s[0]));
        } else {
            assert(Seq::<Nine92er>::empty() + fr =~= fr);
        }
    }
}

/// Orders profiles for the leaderboard: most points first, and among equal
/// points the later one in `users` first.
pub fn rank_users(users: &Vec<Nine92er>) -> (r: Vec<Nine92er>)
    ensures
        r@ == ranking(users@),
{
    let mut out: Vec<Nine92er> = Vec::new();
    let mut i: usize = users.len();
    assert(users@.skip(users@.len() as int) =~= Seq::<Nine92er>::empty());
    while i > 0
        invariant
            i <= users@.len(),
            out@ == ranking(users@.skip(i as int)),
        decreases i,
    {
        i = i - 1;
        let x = users[i];
        let mut k: usize = 0;
        while k < out.len() && out[k].half_points >= x.half_points
            invariant
                k <= out@.len(),
                forall|j: int| 0 <= j < k ==> #[trigger] out@[j].half_points >= x.half_points,
            decreases out@.len() - k,
        {
            k = k + 1;
        }
        proof {
            lemma_ranked_insert_at(out@, x, k as int);
            assert(users@.skip(i as int).drop_first() =~= users@.skip(i + 1));
            assert(users@.skip(i as int)[0] == x);
        }
        out.insert(k, x);
    }
    assert(users@.skip(0) =~= users@);
    out
}

// ---------------------------------------------------------------------------
// Page text
// ---------------------------------------------------------------------------

/// A member of the guild: their user id and the name shown for them.
pub struct GuildMember {
    pub user_id: u64,
    pub display_name: String,
}

/// Why a leaderboard page cannot be made.
#[derive(Debug, PartialEq, Eq, Structural)]
pub enum LeaderboardError {
    /// The page would start after the last profile.
    PositionExceedsLength,
}

impl LeaderboardError {
    /// The text reported for the error.
    pub fn message(&self) -> (r: &'static str)
        ensures
            r@ == seq![
                'P', 'o', 's', 'i', 't', 'i', 'o', 'n', ' ', 'e', 'x', 'c', 'e', 'e', 'd', 's',
                ' ', 'u', 's', 'e', 'r', ' ', 'l', 'i', 's', 't', ' ', 'l', 'e', 'n', 'g', 't', 'h',
            ],
    {
        proof {
            reveal_strlit("Position exceeds user list length");
        }
        "Position exceeds user list length"
    }
}

/// The display name of the first member whose id is `id`.
pub open spec fn member_name(members: Seq<GuildMember>, id: u64) -> Option<Seq<char>>
    decreases members.len(),
{
    if members.len() == 0 {
        None
    } else if members[0].user_id == id {
        Some(members[0].display_name@)
    } else {
        member_name(members.drop_first(), id)
    }
}

/// The name found for an id is the whole display name of the first member
/// with that id, and there is none exactly when no member has it.
pub proof fn lemma_member_name_first_match(members: Seq<GuildMember>, id: u64)
    ensures
        member_name(members, id) is None <==> forall|k: int|
            0 <= k < members.len() ==> members[k].user_id != id,
        member_name(members, id) matches Some(n) ==> exists|k: int|
            0 <= k < members.len() && members[k].user_id == id && n == members[k].display_name@
                && forall|j: int| 0 <= j < k ==> members[j].user_id != id,
    decreases members.len(),
{
    if members.len() > 0 {
        let r = members.drop_first();
        lemma_member_name_first_match(r, id);
        if members[0].user_id == id {
            assert(members[0].user_id == id && member_name(members, id)->0
                == members[0].display_name@);
        } else {
            assert forall|k: int| 0 <= k < r.len() implies r[k] == members[k + 1] by {}
            if member_name(r, id) is None {
                assert forall|k: int| 0 <= k < members.len() implies members[k].user_id != id by {
                    if k > 0 {
                        assert(members[k] == r[k - 1]);
                    }
                }
            } else {
                let k = choose|k: int|
                    0 <= k < r.len() && r[k].user_id == id && member_name(r, id)->0
                        == r[k].display_name@ && forall|j: int| 0 <= j < k ==> r[j].user_id != id;
                assert(members[k + 1] == r[k]);
                assert forall|j: int| 0 <= j < k + 1 implies members[j].user_id != id by {
                    if j > 0 {
                        assert(members[j] == r[j - 1]);
                    }
                }
            }
            if member_name(members, id) is None {
                assert(member_name(r, id) is None);
            } else {
                assert(exists|k: int| 0 <= k < r.len() && r[k].user_id == id);
            }
        }
    }
}

/// Points written as a floating-point number is displayed: `h` half-points
/// are `h / 2` points, shown without a fraction when whole and with `.5`
/// otherwise, with a leading `-` when negative.
pub open spec fn points_text(h: int) -> Seq<char> {
    let a = if h < 0 {
        -h
    } else {
        h
    };
    (if h < 0 {
        seq!['-']
    } else {
        Seq::<char>::empty()
    }) + decimal((a / 2) as nat) + (if a % 2 == 1 {
        seq!['.', '5']
    } else {
        Seq::<char>::empty()
    })
}

/// Points are shown as a number would be: an even count of half-points
/// `2n` as the whole number `n`, an odd count `2n + 1` as `n` followed by
/// `.5`, and a negative count as the same text after a `-`.
pub proof fn lemma_points_text(n: nat)
    ensures
        points_text(2 * n as int) == decimal(n),
        points_text(2 * n as int + 1) == decimal(n) + seq!['.', '5'],
        n > 0 ==> points_text(-(2 * n)) == seq!['-'] + decimal(n),
        points_text(-(2 * n + 1)) == seq!['-'] + decimal(n) + seq!['.', '5'],
{
    assert((2 * n) / 2 == n && (2 * n) % 2 == 0);
    assert((2 * n + 1) / 2 == n && (2 * n + 1) % 2 == 1);
    assert(decimal(n) + Seq::<char>::empty() =~= decimal(n));
    assert(Seq::<char>::empty() + decimal(n) + Seq::<char>::empty() =~= decimal(n));
    assert(Seq::<char>::empty() + decimal(n) + seq!['.', '5'] =~= decimal(n) + seq!['.', '5']);
    assert(seq!['-'] + decimal(n) + Seq::<char>::empty() =~= seq!['-'] + decimal(n));
}

/// One line of the leaderboard: `{number}. {name}: {points}` and a line
/// break, the name with its spoiler markers escaped.
pub open spec fn board_line(number: nat, name: Seq<char>, h: int) -> Seq<char> {
    decimal(number) + seq!['.', ' '] + sanitized(name) + seq![':', ' '] + points_text(h) + seq!['\n']
}

/// The lines for the profiles from index `idx` on, numbered from `number`:
/// profiles whose member is not found are skipped, and at most `room`
/// lines are written.
pub open spec fn page_lines(
    ranked: Seq<Nine92er>,
    members: Seq<GuildMember>,
    idx: int,
    number: nat,
    room: nat,
) -> Seq<char>
    decreases ranked.len() - idx,
{
    if room == 0 || idx < 0 || idx >= ranked.len() {
        Seq::empty()
    } else {
        match member_name(members, ranked[idx]._id as u64) {
            Some(name) => board_line(number, name, ranked[idx].half_points as int) + page_lines(
                ranked,
                members,
                idx + 1,
                number + 1,
                (room - 1) as nat,
            ),
            None => page_lines(ranked, members, idx + 1, number, room),
        }
    }
}

/// The entries a page holds at most.
pub open spec fn page_size() -> nat {
    10
}

/// The text of the page that starts at `position` (counted from zero):
/// up to ten lines, numbered from `position + 1`.
pub open spec fn page_text(ranked: Seq<Nine92er>, members: Seq<GuildMember>, position: int) -> Seq<
    char,
> {
    page_lines(ranked, members, position, (position + 1) as nat, page_size())
}

/// Every profile from index `idx` on belongs to a member of the guild.
pub open spec fn all_listed(ranked: Seq<Nine92er>, members: Seq<GuildMember>, idx: int) -> bool {
    forall|i: int| idx <= i < ranked.len() ==> (#[trigger] member_name(members, ranked[i]._id as u64)) is Some
}

proof fn lemma_page_lines_split(
    ranked: Seq<Nine92er>,
    members: Seq<GuildMember>,
    idx: int,
    number: nat,
    a: nat,
    b: nat,
)
    requires
        idx >= 0,
        all_listed(ranked, members, idx),
    ensures
        page_lines(ranked, members, idx, number, a + b) == page_lines(
            ranked,
            members,
            idx,
            number,
            a,
        ) + page_lines(ranked, members, idx + a, number + a, b),
    decreases a,
{
    if a == 0 {
        assert(Seq::<char>::empty() + page_lines(ranked, members, idx, number, b) =~= page_lines(
            ranked,
            members,
            idx,
            number,
            b,
        ));
    } else if idx >= ranked.len() {
        assert(page_lines(ranked, members, idx + a, number + a, b) == Seq::<char>::empty());
        assert(Seq::<char>::empty() + Seq::<char>::empty() =~= Seq::<char>::empty());
    } else {
        assert(member_name(members, ranked[idx]._id as u64) is Some);
        lemma_page_lines_split(ranked, members, idx + 1, number + 1, (a - 1) as nat, b);
        assert((a - 1) as nat + b == (a + b - 1) as nat);
        let line = board_line(
            number,
            member_name(members, ranked[idx]._id as u64)->0,
            ranked[idx].half_points as int,
        );
        let x = page_lines(ranked, members, idx + 1, number + 1, (a - 1) as nat);
        let y = page_lines(ranked, members, idx + a, number + a, b);
        assert(line + (x + y) =~= (line + x) + y);
    }
}

/// Consecutive pages tile the leaderboard: when every profile from
/// position `p` on belongs to a member, the page at `p` followed by the
/// page at `p + 10` is the listing of the twenty entries from `p`,
/// numbered on from `p + 1`, each once and in order.
pub proof fn lemma_pages_tile(ranked: Seq<Nine92er>, members: Seq<GuildMember>, p: int)
    requires
        p >= 0,
        all_listed(ranked, members, p),
    ensures
        page_text(ranked, members, p) + page_text(ranked, members, p + 10) == page_lines(
            ranked,
            members,
            p,
            (p + 1) as nat,
            2 * page_size(),
        ),
{
    lemma_page_lines_split(ranked, members, p, (p + 1) as nat, page_size(), page_size());
    assert((p + 1) as nat + page_size() == (p + 10 + 1) as nat);
}

/// Finds the display name of the first member with the given id.
fn find_member(members: &Vec<GuildMember>, id: u64) -> (r: Option<String>)
    ensures
        match r {
            Some(s) => member_name(members@, id) == Some(s@),
            None => member_name(members@, id) is None,
        },
        r is None <==> forall|k: int| 0 <= k < members@.len() ==> members@[k].user_id != id,
        r matches Some(s) ==> exists|k: int|
            0 <= k < members@.len() && members@[k].user_id == id && s@ == members@[k].display_name@
                && forall|j: int| 0 <= j < k ==> members@[j].user_id != id,
{
    proof {
        lemma_member_name_first_match(members@, id);
    }
    let n = members.len();
    let mut j: usize = 0;
    assert(members@.skip(0) =~= members@);
    while j < n
        invariant
            n == members@.len(),
            j <= n,
            member_name(members@, id) == member_name(members@.skip(j as int), id),
        decreases n - j,
    {
        let ghost rest = members@.skip(j as int);
        assert(rest.drop_first() =~= members@.skip(j + 1));
        assert(rest[0] == members@[j as int]);
        if members[j].user_id == id {
            proof {
                lemma_member_name_first_match(members@, id);
            }
            return Some(members[j].display_name.clone());
        }
        j = j + 1;
    }
    assert(members@.skip(n as int).len() == 0);
    None
}

/// Appends the text of `h` half-points, as `points_text` says.
fn append_points(out: &mut String, h: i64)
    ensures
        final(out)@ == old(out)@ + points_text(h as int),
{
    let a: u64 = if h < 0 {
        ((-(h + 1)) as u64) + 1
    } else {
        h as u64
    };
    assert(a as int == if h < 0 {
        -h
    } else {
        h as int
    });
    let ghost start = out@;
    if h < 0 {
        push_char(out, '-');
    }
    let whole = u64_to_decimal(a / 2);
    out.append(whole.as_str());
    if a % 2 == 1 {
        out.append(".5");
        proof {
            reveal_strlit(".5");
        }
    }
    assert(out@ =~= start + points_text(h as int));
}

/// Makes the text of the leaderboard page that starts at `position`
/// (counted from zero) from profiles already in leaderboard order:
/// profiles whose member cannot be found are left out, and the page holds
/// up to ten lines numbered from `position + 1`. Fails when `position`
/// lies past the end of the list.
pub fn leaderboard_page(ranked: &Vec<Nine92er>, members: &Vec<GuildMember>, position: usize) -> (r:
    Result<String, LeaderboardError>)
    ensures
        position > ranked@.len() ==> r == Err::<String, LeaderboardError>(
            LeaderboardError::PositionExceedsLength,
        ),
        position <= ranked@.len() ==> (r matches Ok(s) && s@ == page_text(
            ranked@,
            members@,
            position as int,
        )),
{
    let n = ranked.len();
    if position > n {
        return Err(LeaderboardError::PositionExceedsLength);
    }
    let mut out = String::new();
    let mut idx: usize = position;
    let mut shown: usize = 0;
    while idx < n && shown < 10
        invariant
            n == ranked@.len(),
            position <= idx <= n,
            shown <= 10,
            shown <= idx - position,
            page_text(ranked@, members@, position as int) == out@ + page_lines(
                ranked@,
                members@,
                idx as int,
                (position + shown + 1) as nat,
                (10 - shown) as nat,
            ),
        decreases n - idx,
    {
        let entry = ranked[idx];
        let found = find_member(members, entry._id as u64);
        match found {
            Some(name) => {
                let ghost before = out@;
                let ghost rest = page_lines(
                    ranked@,
                    members@,
                    idx + 1,
                    (position + shown + 2) as nat,
                    (10 - shown - 1) as nat,
                );
                let number: u64 = (position + shown + 1) as u64;
                let digits = u64_to_decimal(number);
                out.append(digits.as_str());
                out.append(". ");
                let clean = sanitize_username(name);
                out.append(clean.as_str());
                out.append(": ");
                append_points(&mut out, entry.half_points);
                push_char(&mut out, '\n');
                proof {
                    reveal_strlit(". ");
                    reveal_strlit(": ");
                    assert(out@ =~= before + board_line(
                        (position + shown + 1) as nat,
                        member_name(members@, entry._id as u64)->0,
                        entry.half_points as int,
                    ));
                    assert(before + (board_line(
                        (position + shown + 1) as nat,
                        member_name(members@, entry._id as u64)->0,
                        entry.half_points as int,
                    ) + rest) =~= out@ + rest);
                }
                shown = shown + 1;
            },
            None => {},
        }
        idx = idx + 1;
    }
    assert(page_lines(
        ranked@,
        members@,
        idx as int,
        (position + shown + 1) as nat,
        (10 - shown) as nat,
    ) == Seq::<char>::empty());
    assert(out@ + Seq::<char>::empty() =~= out@);
    Ok(out)
}

/// The leaderboard page that starts at `position`, from the profiles in any
/// order and the members of the guild.
pub fn get_leaderboard(users: &Vec<Nine92er>, members: &Vec<GuildMember>, position: usize) -> (r:
    Result<String, LeaderboardError>)
    ensures
        position > users@.len() ==> r == Err::<String, LeaderboardError>(
            LeaderboardError::PositionExceedsLength,
        ),
        position <= users@.len() ==> (r matches Ok(s) && s@ == page_text(
            ranking(users@),
            members@,
            position as int,
        )),
{
    let ranked = rank_users(users);
    proof {
        lemma_ranking_permutation(users@);
    }
    leaderboard_page(&ranked, members, position)
}

/// The points of a profile as they are displayed.
pub fn format_points(half_points: i64) -> (r: String)
    ensures
        r@ == points_text(half_points as int),
{
    let mut out = String::new();
    append_points(&mut out, half_points);
    assert(Seq::<char>::empty() + points_text(half_points as int) =~= points_text(
        half_points as int,
    ));
    out
}

} // verus!
