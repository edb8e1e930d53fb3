//! One running aggregate and its exact fixed-point rendering.
use crate::model::{
    avg_of, dec_digits, render_fixed, render_stats, rm_add, rm_merge, rm_new, rm_wf, RecordModel,
};
use vstd::arithmetic::div_mod::{
    lemma_div_is_ordered, lemma_div_pos_is_pos, lemma_fundamental_div_mod_converse,
};
use vstd::prelude::*;

verus! {

/// The running statistics of one key: the representative key text (owned)
/// and the minimum, maximum, exact sum and count of its scaled-by-ten
/// values.
pub struct Record {
    pub city: Vec<u8>,
    pub min: i64,
    pub max: i64,
    pub sum: i128,
    pub count: u64,
}

impl View for Record {
    type V = RecordModel;

    open spec fn view(&self) -> RecordModel {
        RecordModel {
            key: self.city@,
            min: self.min as int,
            max: self.max as int,
            sum: self.sum as int,
            count: self.count as int,
        }
    }
}

impl Record {
    /// A fresh aggregate holding a single value.
    pub fn new(value: i64, city: Vec<u8>) -> (r: Record)
        requires
            -999 <= value <= 999,
        ensures
            r@ == rm_new(city@, value as int),
            rm_wf(r@),
    {
        Record { city, min: value, max: value, sum: value as i128, count: 1 }
    }

    /// Fold one more value into the aggregate.
    pub fn add(&mut self, value: i64)
        requires
            -999 <= value <= 999,
            rm_wf(old(self)@),
            old(self).count < 0xffff_ffff_ffff_ffff,
        ensures
            final(self)@ == rm_add(old(self)@, value as int),
            rm_wf(final(self)@),
    {
        if value < self.min {
            self.min = value;
        }
        if value > self.max {
            self.max = value;
        }
        self.sum = self.sum + value as i128;
        self.count = self.count + 1;
    }

    /// Fold a whole aggregate for the same key into this one; this
    /// aggregate's representative key text is kept.
    pub fn merge(&mut self, other: Record)
        requires
            rm_wf(old(self)@),
            rm_wf(other@),
            old(self).count + other.count <= 0xffff_ffff_ffff_ffff,
        ensures
            final(self)@ == rm_merge(old(self)@, other@),
            rm_wf(final(self)@),
    {
        if other.min < self.min {
            self.min = other.min;
        }
        if other.max > self.max {
            self.max = other.max;
        }
        self.sum = self.sum + other.sum;
        self.count = self.count + other.count;
    }

    /// The mean scaled by ten, rounded half away from zero.
    pub fn avg(&self) -> (r: i128)
        requires
            rm_wf(self@),
        ensures
            r as int == avg_of(self@),
            -999 <= r <= 999,
    {
        let c: u128 = self.count as u128;
        let (neg, mag): (bool, u128) = if self.sum < 0 {
            (true, (-self.sum) as u128)
        } else {
            (false, self.sum as u128)
        };
        let q: u128 = (2 * mag + c) / (2 * c);
        proof {
            lemma_div_pos_is_pos((2 * mag + c) as int, (2 * c) as int);
            lemma_fundamental_div_mod_converse(
                (2 * c * 999 + c) as int,
                (2 * c) as int,
                999,
                c as int,
            );
            lemma_div_is_ordered((2 * mag + c) as int, (2 * c * 999 + c) as int, (2 * c) as int);
        }
        if neg {
            -(q as i128)
        } else {
            q as i128
        }
    }

    /// Append `min/avg/max` to `out`.
    pub fn write(&self, out: &mut Vec<u8>)
        requires
            rm_wf(self@),
        ensures
            final(out)@ == old(out)@ + render_stats(self@),
    {
        push_fixed(out, self.min as i128);
        out.push(47);
        let a = self.avg();
        push_fixed(out, a);
        out.push(47);
        push_fixed(out, self.max as i128);
    }
}

/// The aggregates a vector of records stands for.
pub open spec fn rec_views(s: Seq<Record>) -> Seq<RecordModel> {
    s.map_values(|r: Record| r@)
}

/// Append a whole byte string.
pub fn push_bytes(out: &mut Vec<u8>, b: &[u8])
    ensures
        final(out)@ == old(out)@ + b@,
{
    let blen = b.len();
    let mut i: usize = 0;
    proof {
        assert(out@ =~= old(out)@ + b@.subrange(0, 0));
    }
    while i < blen
        invariant
            blen == b@.len(),
            i <= blen,
            out@ == old(out)@ + b@.subrange(0, i as int),
        decreases blen - i,
    {
        out.push(*vstd::slice::slice_index_get(b, i));
        i = i + 1;
        proof {
            assert(out@ =~= old(out)@ + b@.subrange(0, i as int));
        }
    }
    proof {
        assert(b@.subrange(0, blen as int) =~= b@);
    }
}

/// Append the decimal digits of `n`, most significant first.
pub fn push_udec(out: &mut Vec<u8>, n: u128)
    ensures
        final(out)@ == old(out)@ + dec_digits(n as int),
    decreases n,
{
    if n < 10 {
        out.push(48 + n as u8);
    } else {
        push_udec(out, n / 10);
        out.push(48 + (n % 10) as u8);
    }
}

/// Append a scaled-by-ten integer as fixed point with one fractional digit.
pub fn push_fixed(out: &mut Vec<u8>, v: i128)
    requires
        -1000 <= v <= 1000,
    ensures
        final(out)@ == old(out)@ + render_fixed(v as int),
{
    let mag: u128 = if v < 0 {
        out.push(45);
        (-v) as u128
    } else {
        v as u128
    };
    push_udec(out, mag / 10);
    out.push(46);
    out.push(48 + (mag % 10) as u8);
}

} // verus!
