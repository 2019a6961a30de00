//! Schema migrations: which of the numbered migrations a database still needs.
use vstd::prelude::*;

verus! {

/// Number of schema migrations; migration `i` (from 1) brings the schema to version `i`.
pub const MIGRATION_COUNT: u32 = 9;

/// The migrations to run, in order, on a database at version `current`: every target
/// version from 1 to `count` above `current`.
pub open spec fn pending_spec(current: u32, count: u32) -> Seq<u32> {
    if current >= count {
        Seq::empty()
    } else {
        Seq::new((count - current) as nat, |i: int| (current + 1 + i) as u32)
    }
}

/// The target versions of the migrations a database at version `current` still needs.
pub fn pending_migrations(current: u32, count: u32) -> (r: Vec<u32>)
    ensures
        r@ == pending_spec(current, count),
{
    let mut r: Vec<u32> = Vec::new();
    if current >= count {
        return r;
    }
    let mut t: u32 = current + 1;
    loop
        invariant_except_break
            current < t <= count,
            r@ == Seq::new((t - 1 - current) as nat, |i: int| (current + 1 + i) as u32),
        ensures
            r@ == pending_spec(current, count),
        decreases count - t,
    {
        r.push(t);
        proof {
            assert(r@ =~= Seq::new((t - current) as nat, |i: int| (current + 1 + i) as u32));
        }
        if t == count {
            break;
        }
        t = t + 1;
    }
    r
}

/// The schema version after running the pending migrations.
pub open spec fn final_version_spec(current: u32, count: u32) -> u32 {
    if current >= count {
        current
    } else {
        count
    }
}

/// The schema version after running the pending migrations.
pub fn final_version(current: u32, count: u32) -> (v: u32)
    ensures
        v == final_version_spec(current, count),
{
    if current >= count {
        current
    } else {
        count
    }
}

} // verus!
