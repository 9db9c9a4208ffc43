//! Population bookkeeping. The per-person rows are GPU-owned floating-point
//! data that the application stores; the library tracks how many rows are
//! live and how many still wait for the GPU spawn pass.

use vstd::prelude::*;

use crate::layout::{texture_layout, PEOPLE_CAPACITY, TEXELS_PER_PERSON};

verus! {

/// Activity codes stored in a person's row.
#[derive(Clone, Copy, Debug, PartialEq, Eq, Structural)]
pub enum Activity {
    Travelling,
    Home,
    Work,
    Shopping,
}

pub open spec fn spec_activity_code(a: Activity) -> u32 {
    match a {
        Activity::Travelling => 0,
        Activity::Home => 1,
        Activity::Work => 2,
        Activity::Shopping => 3,
    }
}

/// The numeric code of an activity.
pub fn activity_code(a: Activity) -> (c: u32)
    ensures
        c == spec_activity_code(a),
{
    match a {
        Activity::Travelling => 0,
        Activity::Home => 1,
        Activity::Work => 2,
        Activity::Shopping => 3,
    }
}

/// The activity with a given code, if any.
pub fn activity_from_code(c: u32) -> (a: Option<Activity>)
    ensures
        c < 4 <==> a is Some,
        a matches Some(x) ==> spec_activity_code(x) == c,
{
    match c {
        0 => Some(Activity::Travelling),
        1 => Some(Activity::Home),
        2 => Some(Activity::Work),
        3 => Some(Activity::Shopping),
        _ => None,
    }
}

/// How many person rows are live, and the texture they live in.
pub struct PeopleData {
    /// The first `len` rows are live.
    pub len: u32,
    pub tex_width: u32,
    pub tex_height: u32,
    /// The rows need to be uploaded again.
    pub dirty: bool,
}

/// People reserved on the CPU whose rows the GPU spawn pass has not yet
/// initialised.
pub struct PendingGpuSpawns {
    pub count: u32,
}

impl PeopleData {
    pub open spec fn wf(&self) -> bool {
        self.len <= PEOPLE_CAPACITY
    }

    /// Nobody yet, in a texture laid out for `PEOPLE_CAPACITY` people of
    /// `TEXELS_PER_PERSON` texels.
    pub fn new() -> (p: PeopleData)
        ensures
            p.wf(),
            p.len == 0,
            p.dirty,
            p.tex_width == 1024,
            p.tex_height == 1024,
    {
        let (w, h) = texture_layout(PEOPLE_CAPACITY * TEXELS_PER_PERSON, TEXELS_PER_PERSON);
        proof {
            let s = choose|s: int| crate::layout::is_ceil_sqrt(1048576, s) && w == crate::layout::ceil_div(s, 2) * 2;
            assert(s == 1024) by (nonlinear_arith)
                requires
                    s >= 0,
                    s * s >= 1048576,
                    s == 0 || (s - 1) * (s - 1) < 1048576,
            ;
            assert(w == 1024);
            assert((1048576 + 1024 - 1) / 1024 == 1024) by (nonlinear_arith);
        }
        PeopleData { len: 0, tex_width: w, tex_height: h, dirty: true }
    }
}

/// How many of `count` requested people fit when `len` are live.
pub open spec fn spawn_grant(len: int, count: int) -> int {
    if len + count > PEOPLE_CAPACITY {
        if PEOPLE_CAPACITY >= len {
            PEOPLE_CAPACITY - len
        } else {
            0
        }
    } else {
        count
    }
}

/// The number of live people after granting the requests in order.
pub open spec fn len_after_spawns(len: int, counts: Seq<u32>) -> int
    decreases counts.len(),
{
    if counts.len() == 0 {
        len
    } else {
        let before = len_after_spawns(len, counts.drop_last());
        before + spawn_grant(before, counts.last() as int)
    }
}

proof fn lemma_len_after_spawns_bounds(len: int, counts: Seq<u32>)
    requires
        0 <= len <= PEOPLE_CAPACITY,
    ensures
        len <= len_after_spawns(len, counts) <= PEOPLE_CAPACITY,
    decreases counts.len(),
{
    if counts.len() > 0 {
        lemma_len_after_spawns_bounds(len, counts.drop_last());
    }
}

proof fn lemma_len_after_spawns_mono(len: int, counts: Seq<u32>, i: int, j: int)
    requires
        0 <= i <= j <= counts.len(),
    ensures
        len_after_spawns(len, counts.take(i)) <= len_after_spawns(len, counts.take(j)),
    decreases j - i,
{
    if i < j {
        lemma_len_after_spawns_mono(len, counts, i, j - 1);
        assert(counts.take(j).drop_last() =~= counts.take(j - 1));
    }
}

/// Handles spawn requests in order: each reserves as many of its people as
/// still fit under `PEOPLE_CAPACITY` and adds them to the pending count.
/// The rows are not marked dirty: the GPU spawn pass initialises them.
///
/// Returns the range `start..end` of rows reserved, which the caller resets
/// to the default person.
pub fn handle_spawn_requests(counts: &Vec<u32>, people: &mut PeopleData, pending: &mut PendingGpuSpawns) -> (range: (u32, u32))
    requires
        old(people).wf(),
        old(pending).count + len_after_spawns(old(people).len as int, counts@) - old(people).len <= u32::MAX,
    ensures
        final(people).wf(),
        final(people).len == len_after_spawns(old(people).len as int, counts@),
        final(pending).count == old(pending).count + (final(people).len - old(people).len),
        old(pending).count <= old(people).len ==> final(pending).count <= final(people).len,
        range == (old(people).len, final(people).len),
        final(people).tex_width == old(people).tex_width,
        final(people).tex_height == old(people).tex_height,
        final(people).dirty == old(people).dirty,
{
    let start = people.len;
    let n = counts.len();
    let mut i: usize = 0;
    while i < n
        invariant
            n == counts@.len(),
            i <= n,
            people.wf(),
            start == old(people).len,
            people.len == len_after_spawns(start as int, counts@.take(i as int)),
            pending.count == old(pending).count + (people.len - start),
            people.tex_width == old(people).tex_width,
            people.tex_height == old(people).tex_height,
            people.dirty == old(people).dirty,
            old(pending).count + len_after_spawns(start as int, counts@) - start <= u32::MAX,
        decreases n - i,
    {
        let c = counts[i];
        let actual: u32 = if people.len as u64 + c as u64 > PEOPLE_CAPACITY as u64 {
            PEOPLE_CAPACITY - people.len
        } else {
            c
        };
        proof {
            assert(counts@.take(i as int + 1).drop_last() =~= counts@.take(i as int));
            assert(counts@.take(i as int + 1).last() == c);
            lemma_len_after_spawns_mono(start as int, counts@, i as int + 1, n as int);
            assert(counts@.take(n as int) =~= counts@);
        }
        if actual > 0 {
            pending.count = pending.count + actual;
            people.len = people.len + actual;
        }
        i = i + 1;
    }
    proof {
        assert(counts@.take(n as int) =~= counts@);
    }
    (start, people.len)
}

} // verus!
