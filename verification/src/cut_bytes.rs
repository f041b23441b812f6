//! Cut bytes: the whole input is one sequence of bytes, and each bound
//! selects a range of it.
use crate::options::Opt;
use crate::side::{ErrorView, TucError};
use crate::text::append_bytes;
use crate::userbounds::{spec_try_into_range, BofView, BoundOrFiller};
use vstd::prelude::*;

verus! {

/// What one entry prints for `data`: a filler as it is, a bound the bytes of
/// its range.
pub open spec fn byte_entry_out(data: Seq<u8>, x: BofView) -> (Seq<u8>, Option<ErrorView>) {
    match x {
        BofView::Filler(f) => (f, None),
        BofView::Bound(b) => match spec_try_into_range(b.l, b.r, data.len() as int) {
            Ok((s, e)) => (data.subrange(s, e), None),
            Err(e) => (Seq::empty(), Some(e)),
        },
    }
}

/// What the entries print for `data`, in order, up to the first error.
#[verifier::opaque]
pub open spec fn spec_cut_bytes_list(data: Seq<u8>, bofs: Seq<BofView>) -> (Seq<u8>, Option<ErrorView>)
    decreases bofs.len(),
{
    if bofs.len() == 0 {
        (Seq::empty(), None)
    } else {
        let prev = spec_cut_bytes_list(data, bofs.drop_last());
        if prev.1 is Some {
            prev
        } else {
            let cur = byte_entry_out(data, bofs.last());
            (prev.0 + cur.0, cur.1)
        }
    }
}

/// What cutting `data` into bytes prints: nothing for no data.
pub open spec fn spec_cut_bytes(data: Seq<u8>, opt: Opt) -> (Seq<u8>, Option<ErrorView>) {
    if data.len() == 0 {
        (Seq::empty(), None)
    } else {
        spec_cut_bytes_list(data, opt.bounds@)
    }
}

proof fn lemma_cut_bytes_step(data: Seq<u8>, s: Seq<BofView>, i: int)
    requires
        0 <= i < s.len(),
    ensures
        ({
            let prev = spec_cut_bytes_list(data, s.subrange(0, i));
            spec_cut_bytes_list(data, s.subrange(0, i + 1)) == if prev.1 is Some {
                prev
            } else {
                let cur = byte_entry_out(data, s[i]);
                (prev.0 + cur.0, cur.1)
            }
        }),
{
    reveal(spec_cut_bytes_list);
    assert(s.subrange(0, i + 1).drop_last() =~= s.subrange(0, i));
}

proof fn lemma_cut_bytes_error_stays(data: Seq<u8>, s: Seq<BofView>, k: int)
    requires
        0 <= k <= s.len(),
        spec_cut_bytes_list(data, s.subrange(0, k)).1 is Some,
    ensures
        spec_cut_bytes_list(data, s) == spec_cut_bytes_list(data, s.subrange(0, k)),
    decreases s.len() - k,
{
    if k < s.len() {
        lemma_cut_bytes_step(data, s, k);
        lemma_cut_bytes_error_stays(data, s, k + 1);
    } else {
        assert(s.subrange(0, k) =~= s);
    }
}

/// Print, for each entry, the filler or the bytes of the bound's range; stop
/// on the first bound that does not fit.
fn cut_bytes(data: &[u8], opt: &Opt, stdout: &mut Vec<u8>) -> (r: Result<(), TucError>)
    ensures
        final(stdout)@ == old(stdout)@ + spec_cut_bytes(data@, *opt).0,
        match r {
            Ok(_) => spec_cut_bytes(data@, *opt).1 is None,
            Err(e) => spec_cut_bytes(data@, *opt).1 == Some(e@),
        },
{
    if data.len() == 0 {
        proof {
            assert(stdout@ =~= old(stdout)@ + Seq::<u8>::empty());
        }
        return Ok(());
    }
    let ghost s = opt.bounds@;
    let ghost start = stdout@;
    let mut i: usize = 0;
    proof {
        reveal(spec_cut_bytes_list);
        assert(s.subrange(0, 0) =~= Seq::<BofView>::empty());
        assert(start + Seq::<u8>::empty() =~= start);
    }
    while i < opt.bounds.list.len()
        invariant
            i <= opt.bounds.list@.len(),
            s == opt.bounds@,
            data@.len() > 0,
            spec_cut_bytes_list(data@, s.subrange(0, i as int)).1 is None,
            stdout@ == start + spec_cut_bytes_list(data@, s.subrange(0, i as int)).0,
            start == old(stdout)@,
        decreases opt.bounds.list.len() - i,
    {
        proof {
            lemma_cut_bytes_step(data@, s, i as int);
            assert(s[i as int] == opt.bounds.list@[i as int]@);
        }
        match &opt.bounds.list[i] {
            BoundOrFiller::Filler(f) => {
                append_bytes(stdout, f.as_slice());
            },
            BoundOrFiller::Bound(b) => {
                match b.try_into_range(data.len()) {
                    Ok(r) => {
                        append_bytes(stdout, &data[r.start..r.end]);
                    },
                    Err(e) => {
                        proof {
                            assert(stdout@ =~= start + spec_cut_bytes_list(data@, s.subrange(0, i + 1)).0);
                            assert(s.subrange(0, s.len() as int) =~= s);
                            lemma_cut_bytes_error_stays(data@, s, i + 1);
                        }
                        return Err(e);
                    },
                }
            },
        }
        proof {
            assert(stdout@ =~= start + spec_cut_bytes_list(data@, s.subrange(0, i + 1)).0);
        }
        i = i + 1;
    }
    proof {
        assert(s.subrange(0, s.len() as int) =~= s);
    }
    Ok(())
}

/// Cut the whole input as bytes (see `spec_cut_bytes`).
pub fn read_and_cut_bytes(input: &[u8], stdout: &mut Vec<u8>, opt: &Opt) -> (r: Result<(), TucError>)
    ensures
        final(stdout)@ == old(stdout)@ + spec_cut_bytes(input@, *opt).0,
        match r {
            Ok(_) => spec_cut_bytes(input@, *opt).1 is None,
            Err(e) => spec_cut_bytes(input@, *opt).1 == Some(e@),
        },
{
    cut_bytes(input, opt, stdout)
}

} // verus!
