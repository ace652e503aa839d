//! Which path inside the extraction directory an archive member may be
//! written to. An archive is data from somewhere else, and a member named
//! `../../etc/cron.d/anything` is a well-known way to turn unpacking a
//! download into running a program, so only the plain-name parts of a member
//! path survive, and a member that climbs out or names no file is refused.
//!
//! The parts are read the way a Unix path is taken apart: a leading `/` is
//! the root, `/` separates the parts, empty parts and `.` are dropped, and
//! `..` is the parent directory.

use vstd::prelude::*;
use vstd::string::StringExecFns;
use crate::text::{chars_of, push_char};

verus! {

/// The pieces of a text between its `/` separators, empty ones included.
pub open spec fn pieces(s: Seq<char>) -> Seq<Seq<char>>
    decreases s.len(),
{
    if s.len() == 0 {
        seq![Seq::empty()]
    } else if s.last() == '/' {
        pieces(s.drop_last()).push(Seq::empty())
    } else {
        let before = pieces(s.drop_last());
        before.update(before.len() - 1, before.last().push(s.last()))
    }
}

/// Whether a piece names the parent directory.
pub open spec fn is_parent(p: Seq<char>) -> bool {
    p == seq!['.', '.']
}

/// Whether a piece is dropped: empty, or the current directory.
pub open spec fn is_dropped(p: Seq<char>) -> bool {
    p.len() == 0 || p == seq!['.']
}

/// The pieces that name something, in order.
pub open spec fn named(ps: Seq<Seq<char>>) -> Seq<Seq<char>>
    decreases ps.len(),
{
    if ps.len() == 0 {
        Seq::empty()
    } else if is_dropped(ps.last()) {
        named(ps.drop_last())
    } else {
        named(ps.drop_last()).push(ps.last())
    }
}

/// The message a refused member is reported with.
pub open spec fn refusal(member: Seq<char>, why: Seq<char>) -> Seq<char> {
    "the archive holds an entry named `"@ + member + why
}

/// Where a member may go: the plain-name parts of its path, or the reason it
/// is refused.
pub open spec fn member_parts(member: Seq<char>) -> Result<Seq<Seq<char>>, Seq<char>> {
    let ps = pieces(member);
    if (member.len() > 0 && member[0] == '/') || exists|i: int| 0 <= i < ps.len() && is_parent(#[trigger] ps[i]) {
        Err(refusal(member, "`, which points outside the directory being extracted into"@))
    } else if named(ps).len() == 0 {
        Err(refusal(member, "`, which names no file"@))
    } else {
        Ok(named(ps))
    }
}

/// The views of a list of strings.
pub open spec fn views(v: Seq<String>) -> Seq<Seq<char>> {
    v.map_values(|s: String| s@)
}

fn refused(member: &str, why: &str) -> (r: String)
    ensures
        r@ == "the archive holds an entry named `"@ + member@ + why@,
{
    let mut m = String::from_str("the archive holds an entry named `");
    m.append(member);
    m.append(why);
    m
}

/// A string of characters.
fn text_of(cs: &Vec<char>) -> (r: String)
    ensures
        r@ == cs@,
{
    let mut out = String::new();
    let mut i: usize = 0;
    while i < cs.len()
        invariant
            i <= cs@.len(),
            out@ == cs@.take(i as int),
        decreases cs@.len() - i,
    {
        push_char(&mut out, cs[i]);
        proof { assert(out@ =~= cs@.take(i + 1)); }
        i = i + 1;
    }
    proof { assert(cs@.take(cs@.len() as int) =~= cs@); }
    out
}

proof fn lemma_pieces_nonempty(s: Seq<char>)
    ensures
        pieces(s).len() >= 1,
    decreases s.len(),
{
    if s.len() > 0 {
        lemma_pieces_nonempty(s.drop_last());
    }
}

/// Whether one of the first `n` pieces names the parent directory.
pub open spec fn parent_among(ps: Seq<Seq<char>>, n: int) -> bool {
    exists|j: int| 0 <= j < n && is_parent(#[trigger] ps[j])
}

proof fn lemma_parent_after_slash(before: Seq<Seq<char>>, after: Seq<Seq<char>>)
    requires
        before.len() >= 1,
        after == before.push(Seq::<char>::empty()),
    ensures
        parent_among(after, after.len() - 1) == (parent_among(before, before.len() - 1) || is_parent(before.last())),
{
    if parent_among(before, before.len() - 1) {
        let j = choose|j: int| 0 <= j < before.len() - 1 && is_parent(#[trigger] before[j]);
        assert(after[j] == before[j]);
    }
    if is_parent(before.last()) {
        assert(after[before.len() - 1] == before.last());
    }
    if parent_among(after, after.len() - 1) {
        let j = choose|j: int| 0 <= j < after.len() - 1 && is_parent(#[trigger] after[j]);
        assert(after[j] == before[j]);
        if j < before.len() - 1 {
            assert(parent_among(before, before.len() - 1));
        }
    }
}

proof fn lemma_parent_after_char(before: Seq<Seq<char>>, after: Seq<Seq<char>>)
    requires
        before.len() >= 1,
        after.len() == before.len(),
        after.drop_last() == before.drop_last(),
    ensures
        parent_among(after, after.len() - 1) == parent_among(before, before.len() - 1),
{
    if parent_among(before, before.len() - 1) {
        let j = choose|j: int| 0 <= j < before.len() - 1 && is_parent(#[trigger] before[j]);
        assert(before.drop_last()[j] == after.drop_last()[j]);
        assert(after[j] == before[j]);
    }
    if parent_among(after, after.len() - 1) {
        let j = choose|j: int| 0 <= j < after.len() - 1 && is_parent(#[trigger] after[j]);
        assert(before.drop_last()[j] == after.drop_last()[j]);
        assert(after[j] == before[j]);
    }
}

/// The plain-name parts of an archive member's path, or the refusal for a
/// member that climbs out of the directory or names no file.
pub fn safe_member_parts(member: &str) -> (r: Result<Vec<String>, String>)
    ensures
        match (r, member_parts(member@)) {
            (Ok(v), Ok(ps)) => views(v@) == ps,
            (Err(e), Err(m)) => e@ == m,
            _ => false,
        },
{
    let cs = chars_of(member);
    let ghost s = cs@;
    let mut kept: Vec<String> = Vec::new();
    let mut piece: Vec<char> = Vec::new();
    let mut i: usize = 0;
    let mut climbs = cs.len() > 0 && cs[0] == '/';
    proof { assert(s.take(0) =~= Seq::<char>::empty()); }
    while i < cs.len()
        invariant
            s == cs@,
            s == member@,
            i <= s.len(),
            pieces(s.take(i as int)).last() == piece@,
            views(kept@) == named(pieces(s.take(i as int)).drop_last()),
            climbs == ((s.len() > 0 && s[0] == '/') || parent_among(pieces(s.take(i as int)), pieces(s.take(i as int)).len() - 1)),
        decreases s.len() - i,
    {
        let c = cs[i];
        let ghost before = pieces(s.take(i as int));
        proof {
            lemma_pieces_nonempty(s.take(i as int));
            assert(s.take(i + 1).drop_last() =~= s.take(i as int));
            assert(s.take(i + 1).last() == c);
        }
        if c == '/' {
            let ghost after = pieces(s.take(i + 1));
            proof {
                assert(after == before.push(Seq::<char>::empty()));
                assert(after.drop_last() =~= before);
            }
            proof { lemma_parent_after_slash(before, after); }
            if piece.len() == 0 || (piece.len() == 1 && piece[0] == '.') {
                proof {
                    if piece.len() == 1 { assert(piece@ =~= seq!['.']); }
                    assert(!is_parent(before.last()));
                    assert(named(before) == named(before.drop_last()));
                }
            } else {
                if piece.len() == 2 && piece[0] == '.' && piece[1] == '.' {
                    proof { assert(piece@ =~= seq!['.', '.']); }
                    climbs = true;
                } else {
                    proof { assert(!(piece@ =~= seq!['.', '.'])); }
                }
                proof { assert(!is_dropped(before.last())); }
                let t = text_of(&piece);
                kept.push(t);
                proof { assert(views(kept@) =~= named(before.drop_last()).push(before.last())); }
            }
            piece = Vec::new();
        } else {
            piece.push(c);
            proof {
                let after = pieces(s.take(i + 1));
                assert(after == before.update(before.len() - 1, before.last().push(c)));
                assert(after.drop_last() =~= before.drop_last());
                lemma_parent_after_char(before, after);
            }
        }
        i = i + 1;
    }
    proof {
        assert(s.take(s.len() as int) =~= s);
        lemma_pieces_nonempty(s);
    }
    let ghost ps = pieces(s);
    if piece.len() == 0 || (piece.len() == 1 && piece[0] == '.') {
        proof {
            if piece.len() == 1 { assert(piece@ =~= seq!['.']); }
            assert(!is_parent(ps.last()));
            assert(named(ps) == named(ps.drop_last()));
        }
    } else {
        if piece.len() == 2 && piece[0] == '.' && piece[1] == '.' {
            proof { assert(piece@ =~= seq!['.', '.']); }
            climbs = true;
        } else {
            proof { assert(!(piece@ =~= seq!['.', '.'])); }
        }
        let t = text_of(&piece);
        kept.push(t);
        proof { assert(views(kept@) =~= named(ps.drop_last()).push(ps.last())); }
    }
    proof {
        if !climbs {
            assert forall|j: int| 0 <= j < ps.len() implies !is_parent(#[trigger] ps[j]) by {
                if j < ps.len() - 1 {
                    assert(!parent_among(ps, ps.len() - 1));
                }
            }
        } else if !(s.len() > 0 && s[0] == '/') {
            if is_parent(ps.last()) {
                assert(is_parent(ps[ps.len() - 1]));
            } else {
                let j = choose|j: int| 0 <= j < ps.len() - 1 && is_parent(#[trigger] ps[j]);
                assert(is_parent(ps[j]));
            }
        }
    }
    if climbs {
        return Err(refused(member, "`, which points outside the directory being extracted into"));
    }
    if kept.len() == 0 {
        return Err(refused(member, "`, which names no file"));
    }
    Ok(kept)
}

} // verus!
