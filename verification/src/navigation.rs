//! Paging through the leaderboard with the "prev" and "next" buttons: the
//! page shown starts with its position number, the buttons read it back
//! and ask for the page ten entries earlier or later.
use vstd::prelude::*;

use crate::leaderboard::{board_line, page_lines, page_size, page_text, GuildMember};
use crate::participation::Nine92er;
use crate::text::{
    all_digits, before_first_dot, chars_of, decimal, is_digit, lemma_decimal_digits, parsed_usize,
};

verus! {

/// Which button was pressed.
#[derive(Debug, Clone, Copy, PartialEq, Eq, Structural)]
pub enum PageTurn {
    Previous,
    Next,
}

/// The custom id of the "previous page" button.
pub open spec fn prev_id() -> Seq<char> {
    seq!['p', 'r', 'e', 'v']
}

/// The custom id of the "next page" button.
pub open spec fn next_id() -> Seq<char> {
    seq!['n', 'e', 'x', 't']
}

/// Recognises the button of a component interaction by its custom id.
pub fn page_turn(custom_id: &str) -> (r: Option<PageTurn>)
    ensures
        custom_id@ == prev_id() ==> r == Some(PageTurn::Previous),
        custom_id@ == next_id() ==> r == Some(PageTurn::Next),
        custom_id@ != prev_id() && custom_id@ != next_id() ==> r is None,
{
    let cs = chars_of(custom_id);
    if cs.len() != 4 {
        return None;
    }
    if cs[0] == 'p' && cs[1] == 'r' && cs[2] == 'e' && cs[3] == 'v' {
        assert(cs@ =~= prev_id());
        Some(PageTurn::Previous)
    } else if cs[0] == 'n' && cs[1] == 'e' && cs[2] == 'x' && cs[3] == 't' {
        assert(cs@ =~= next_id());
        Some(PageTurn::Next)
    } else {
        assert(cs@ != prev_id() && cs@ != next_id()) by {
            if cs@ == prev_id() {
                assert(cs@[0] == 'p' && cs@[1] == 'r' && cs@[2] == 'e' && cs@[3] == 'v');
            }
            if cs@ == next_id() {
                assert(cs@[0] == 'n' && cs@[1] == 'e' && cs@[2] == 'x' && cs@[3] == 't');
            }
        }
        None
    }
}

/// The position (counted from zero) of the page a button asks for, from
/// the number `first_pos` that the shown page starts with. "prev" goes
/// ten entries back and does nothing on a page that starts below 10;
/// "next" goes ten entries on.
pub open spec fn turned_position(turn: PageTurn, first_pos: int) -> Option<int> {
    match turn {
        PageTurn::Previous => if first_pos >= 10 {
            Some(first_pos - 11)
        } else {
            None
        },
        PageTurn::Next => Some(first_pos + 9),
    }
}

/// Computes the position of the page that a button asks for. A page that
/// starts with number 10 has no previous page (the subtraction would go
/// below zero), and a next page must be countable.
pub fn target_position(turn: PageTurn, first_pos: usize) -> (r: Option<usize>)
    requires
        turn == PageTurn::Previous ==> first_pos != 10,
        turn == PageTurn::Next ==> first_pos + 9 <= usize::MAX,
    ensures
        r == match turned_position(turn, first_pos as int) {
            Some(p) => Some(p as usize),
            None => None,
        },
{
    match turn {
        PageTurn::Previous => {
            if first_pos >= 10 {
                Some(first_pos - 11)
            } else {
                None
            }
        },
        PageTurn::Next => Some(first_pos + 9),
    }
}

// ---------------------------------------------------------------------------
// Laws
// ---------------------------------------------------------------------------

/// "prev" undoes "next": from the page that starts at position `p`
/// (showing number `p + 1`), "next" asks for position `p + 10`, whose page
/// shows `p + 11`, and "prev" there asks for `p` again.
pub proof fn lemma_prev_undoes_next(p: int)
    requires
        p >= 0,
    ensures
        turned_position(PageTurn::Next, p + 1) == Some(p + 10),
        turned_position(PageTurn::Previous, p + 10 + 1) == Some(p),
{
}

proof fn lemma_before_dot_of_number(n: nat, rest: Seq<char>)
    ensures
        before_first_dot(decimal(n) + seq!['.'] + rest) == Some(decimal(n)),
{
    lemma_decimal_digits(n);
    lemma_before_dot_digits(decimal(n), rest);
}

proof fn lemma_before_dot_digits(d: Seq<char>, rest: Seq<char>)
    requires
        all_digits(d),
    ensures
        before_first_dot(d + seq!['.'] + rest) == Some(d),
    decreases d.len(),
{
    let s = d + seq!['.'] + rest;
    if d.len() == 0 {
        assert(s[0] == '.');
    } else {
        assert(is_digit(d[0]));
        assert(s[0] == d[0]);
        let t = d.drop_first();
        assert forall|i: int| 0 <= i < t.len() implies is_digit(#[trigger] t[i]) by {
            assert(t[i] == d[i + 1]);
        }
        lemma_before_dot_digits(t, rest);
        assert(s.drop_first() =~= t + seq!['.'] + rest);
        assert(seq![d[0]] + t =~= d);
    }
}

/// Either nothing is written from `idx` on, or the text starts with the
/// line numbered `number`.
proof fn lemma_page_lines_start(
    ranked: Seq<Nine92er>,
    members: Seq<GuildMember>,
    idx: int,
    number: nat,
    room: nat,
)
    ensures
        page_lines(ranked, members, idx, number, room).len() == 0 || exists|rest: Seq<char>|
            page_lines(ranked, members, idx, number, room) == decimal(number) + seq!['.'] + rest,
    decreases ranked.len() - idx,
{
    if !(room == 0 || idx < 0 || idx >= ranked.len()) {
        match crate::leaderboard::member_name(members, ranked[idx]._id as u64) {
            Some(name) => {
                let tail = page_lines(ranked, members, idx + 1, number + 1, (room - 1) as nat);
                let line = board_line(number, name, ranked[idx].half_points as int);
                let rest = line.skip(decimal(number).len() as int + 1) + tail;
                assert(line + tail =~= decimal(number) + seq!['.'] + rest);
            },
            None => {
                lemma_page_lines_start(ranked, members, idx + 1, number, room);
            },
        }
    }
}

/// The buttons read back the number a page was written with: the text
/// before the first `.` of a non-empty page that starts at `position`
/// parses to `position + 1`.
pub proof fn lemma_page_number_round_trip(
    ranked: Seq<Nine92er>,
    members: Seq<GuildMember>,
    position: int,
)
    requires
        0 <= position,
        position + 1 <= usize::MAX,
        page_text(ranked, members, position).len() > 0,
    ensures
        match before_first_dot(page_text(ranked, members, position)) {
            Some(p) => parsed_usize(p) == Some((position + 1) as usize),
            None => false,
        },
{
    let n = (position + 1) as nat;
    lemma_page_lines_start(ranked, members, position, n, page_size());
    let rest = choose|rest: Seq<char>|
        page_lines(ranked, members, position, n, page_size()) == decimal(n) + seq!['.'] + rest;
    lemma_before_dot_of_number(n, rest);
    lemma_decimal_digits(n);
    let d = decimal(n);
    assert(d[0] != '+') by {
        assert(is_digit(d[0]));
    }
}

} // verus!
