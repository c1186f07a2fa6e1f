//! Moving one disk between posts of a Tower-of-Hanoi board.  A post is a
//! column of slots, top first, with zero marking an empty slot.

use vstd::prelude::*;

verus! {

/// The first occupied slot of a post at or below `r`, or the post's length
/// when everything from `r` down is empty.
pub open spec fn top_slot(post: Seq<u64>, r: int) -> int
    decreases post.len() - r,
{
    if r < 0 || r >= post.len() {
        post.len() as int
    } else if post[r] != 0 {
        r
    } else {
        top_slot(post, r + 1)
    }
}

/// The top slot is within range and every slot above it is empty.
pub proof fn lemma_top_slot(post: Seq<u64>, r: int)
    requires
        0 <= r <= post.len(),
    ensures
        r <= top_slot(post, r) <= post.len(),
        forall|t: int| r <= t < top_slot(post, r) ==> post[t] == 0,
        top_slot(post, r) < post.len() ==> post[top_slot(post, r)] != 0,
    decreases post.len() - r,
{
    if r < post.len() && post[r] == 0 {
        lemma_top_slot(post, r + 1);
    }
}

/// Move the top disk of `from_post` onto `to_post`: the disk leaves the
/// first occupied slot of its post and lands just above the first occupied
/// slot of the other, which must have room.  Nothing else changes.
pub fn move_disk(posts: &mut Vec<Vec<u64>>, from_post: usize, to_post: usize)
    requires
        old(posts)@.len() == 3,
        from_post < 3,
        to_post < 3,
        from_post != to_post,
        forall|p: int| 0 <= p < 3 ==> (#[trigger] old(posts)@[p])@.len() == old(
            posts,
        )@[0]@.len(),
        1 <= old(posts)@[0]@.len(),
        top_slot(old(posts)@[from_post as int]@, 0) < old(posts)@[0]@.len(),
        old(posts)@[to_post as int]@[0] == 0,
    ensures
        final(posts)@.len() == 3,
        forall|p: int|
            0 <= p < 3 && p != from_post && p != to_post ==> final(posts)@[p] == old(
                posts,
            )@[p],
        final(posts)@[from_post as int]@ == old(posts)@[from_post as int]@.update(
            top_slot(old(posts)@[from_post as int]@, 0),
            0,
        ),
        final(posts)@[to_post as int]@ == old(posts)@[to_post as int]@.update(
            top_slot(old(posts)@[to_post as int]@, 0) - 1,
            old(posts)@[from_post as int]@[top_slot(old(posts)@[from_post as int]@, 0)],
        ),
{
    let num_disks = posts[0].len();
    let ghost from_col = old(posts)@[from_post as int]@;
    let ghost to_col = old(posts)@[to_post as int]@;
    proof {
        lemma_top_slot(from_col, 0);
        lemma_top_slot(to_col, 0);
    }
    // Find the first occupied slot of the source post.
    let mut from_row: usize = 0;
    while from_row < num_disks && posts[from_post][from_row] == 0
        invariant
            posts@ == old(posts)@,
            posts@[from_post as int]@ == from_col,
            num_disks == from_col.len(),
            from_post < 3,
            posts@.len() == 3,
            0 <= from_row <= num_disks,
            forall|t: int| 0 <= t < from_row ==> from_col[t] == 0,
            from_row <= top_slot(from_col, 0),
        decreases num_disks - from_row,
    {
        proof {
            lemma_top_slot(from_col, from_row + 1);
            assert(top_slot(from_col, from_row as int) == top_slot(from_col, from_row + 1));
            assert(top_slot(from_col, 0) == top_slot(from_col, from_row as int)) by {
                lemma_top_slot_prefix(from_col, from_row as int);
            }
        }
        from_row = from_row + 1;
    }
    proof {
        assert(from_row == top_slot(from_col, 0)) by {
            lemma_top_slot_prefix(from_col, from_row as int);
        }
    }
    // Find the last empty slot of the destination post.
    let mut probe: usize = 0;
    while probe < num_disks && posts[to_post][probe] == 0
        invariant
            posts@ == old(posts)@,
            posts@[to_post as int]@ == to_col,
            num_disks == to_col.len(),
            to_post < 3,
            posts@.len() == 3,
            0 <= probe <= num_disks,
            forall|t: int| 0 <= t < probe ==> to_col[t] == 0,
            probe <= top_slot(to_col, 0),
        decreases num_disks - probe,
    {
        proof {
            assert(to_col[probe as int] == 0);
            lemma_top_slot(to_col, probe + 1);
            lemma_top_slot_prefix(to_col, probe + 1);
        }
        probe = probe + 1;
    }
    proof {
        assert(probe == top_slot(to_col, 0)) by {
            lemma_top_slot_prefix(to_col, probe as int);
        }
        assert(probe >= 1);
    }
    let to_row = probe - 1;
    let disk = posts[from_post][from_row];
    posts[from_post][from_row] = 0;
    posts[to_post][to_row] = disk;
}

/// Scanning past empty slots does not move the top: the top at zero equals
/// the top at any index whose prefix is all empty.
proof fn lemma_top_slot_prefix(post: Seq<u64>, r: int)
    requires
        0 <= r <= post.len(),
        forall|t: int| 0 <= t < r ==> post[t] == 0,
    ensures
        top_slot(post, 0) == top_slot(post, r),
    decreases r,
{
    if r > 0 {
        lemma_top_slot_prefix(post, r - 1);
        assert(top_slot(post, r - 1) == top_slot(post, r));
    }
}

} // verus!
