//! Integer sample values: reading a word as a signed sample, and scaling a sample from
//! one integer width to another.
use vstd::prelude::*;
use crate::bytes::{lemma_pow256_values, pow256};
use crate::codec::{words_fit, Signal};
use crate::format::{SampleType, WavError};

verus! {

/// Half the full scale of an integer type: its samples lie in `-half .. half`.
pub open spec fn half(t: SampleType) -> int {
    match t {
        SampleType::Int16 => 0x8000,
        SampleType::Int24 => 0x80_0000,
        _ => 0x8000_0000,
    }
}

/// Whether `v` is a sample of the integer type `t`.
pub open spec fn in_range(v: int, t: SampleType) -> bool {
    -half(t) <= v < half(t)
}

/// The signed sample that a two's-complement word of type `t` holds.
pub open spec fn signed_of(word: nat, t: SampleType) -> int {
    if word >= half(t) {
        word - 2 * half(t)
    } else {
        word as int
    }
}

/// The two's-complement word of the sample `v` of type `t`.
pub open spec fn word_of(v: int, t: SampleType) -> nat {
    if v < 0 {
        (v + 2 * half(t)) as nat
    } else {
        v as nat
    }
}

/// Division that truncates toward zero.
pub open spec fn trunc_div(v: int, d: int) -> int {
    if v < 0 {
        -((-v) / d)
    } else {
        v / d
    }
}

/// The sample `v` of type `from` scaled to type `to`: multiplied by `2^(m-n)` when
/// widening from `n` to `m` bits, divided by `2^(n-m)` toward zero when narrowing.
pub open spec fn scale(v: int, from: SampleType, to: SampleType) -> int {
    if half(to) >= half(from) {
        v * (half(to) / half(from))
    } else {
        trunc_div(v, half(from) / half(to))
    }
}

proof fn lemma_half_fits(t: SampleType)
    requires
        t.spec_is_int(),
    ensures
        2 * half(t) == pow256(t.spec_width()),
{
    lemma_pow256_values();
}

fn half_of(t: SampleType) -> (r: i64)
    ensures
        r == half(t),
{
    match t {
        SampleType::Int16 => 0x8000,
        SampleType::Int24 => 0x80_0000,
        _ => 0x8000_0000,
    }
}

/// Reads a word of an integer type as its signed sample.
pub fn word_to_int(word: u64, t: SampleType) -> (r: i32)
    requires
        t.spec_is_int(),
        word < pow256(t.spec_width()),
    ensures
        r == signed_of(word as nat, t),
        in_range(r as int, t),
{
    proof {
        lemma_half_fits(t);
    }
    let h = half_of(t) as u64;
    if word >= h {
        (word as i64 - 2 * h as i64) as i32
    } else {
        word as i32
    }
}

/// The two's-complement word of a sample of an integer type.
pub fn int_to_word(v: i32, t: SampleType) -> (r: u64)
    requires
        t.spec_is_int(),
        in_range(v as int, t),
    ensures
        r == word_of(v as int, t),
        r < pow256(t.spec_width()),
        signed_of(r as nat, t) == v,
{
    proof {
        lemma_half_fits(t);
    }
    if v < 0 {
        (v as i64 + 2 * half_of(t)) as u64
    } else {
        v as u64
    }
}

/// Scales a sample of integer type `from` to integer type `to`.
pub fn convert_int(v: i32, from: SampleType, to: SampleType) -> (r: i32)
    requires
        from.spec_is_int(),
        to.spec_is_int(),
        in_range(v as int, from),
    ensures
        r == scale(v as int, from, to),
        in_range(r as int, to),
{
    let hf = half_of(from);
    let ht = half_of(to);
    let x = v as i64;
    if ht >= hf {
        let k = ht / hf;
        proof {
            assert(hf * k == ht);
            assert(-ht <= x * k < ht) by (nonlinear_arith)
                requires
                    -hf <= x < hf,
                    hf * k == ht,
                    k >= 1,
            ;
        }
        (x * k) as i32
    } else {
        let d = hf / ht;
        proof {
            assert(ht * d == hf);
            assert(d >= 2);
            if x < 0 {
                assert(0 <= (-(x as int)) / (d as int) <= ht) by (nonlinear_arith)
                    requires
                        -hf <= x < 0,
                        ht * d == hf,
                        d >= 2,
                ;
            } else {
                assert(0 <= x / d < ht) by (nonlinear_arith)
                    requires
                        0 <= x < hf,
                        ht * d == hf,
                        d >= 2,
                ;
            }
        }
        if x < 0 {
            (-((-x) / d)) as i32
        } else {
            (x / d) as i32
        }
    }
}

proof fn lemma_half_ratio(a: SampleType, b: SampleType)
    requires
        a.spec_is_int(),
        b.spec_is_int(),
        half(a) <= half(b),
    ensures
        half(b) / half(a) >= 1,
        half(a) * (half(b) / half(a)) == half(b),
        half(a) < half(b) ==> half(a) / half(b) == 0,
        half(a) == half(b) ==> half(b) / half(a) == 1,
{
    match a {
        SampleType::Int16 => match b {
            SampleType::Int16 => {},
            SampleType::Int24 => {},
            _ => {},
        },
        SampleType::Int24 => match b {
            SampleType::Int24 => {},
            _ => {},
        },
        _ => {},
    }
}

/// Converting a sample to its own type leaves it unchanged.
pub proof fn lemma_scale_same_type(v: int, t: SampleType)
    requires
        t.spec_is_int(),
    ensures
        scale(v, t, t) == v,
{
    lemma_half_ratio(t, t);
}

/// Widening a sample to a type at least as wide and narrowing it back gives the sample.
pub proof fn lemma_widen_then_narrow(v: int, from: SampleType, to: SampleType)
    requires
        from.spec_is_int(),
        to.spec_is_int(),
        half(to) >= half(from),
        in_range(v, from),
    ensures
        scale(scale(v, from, to), to, from) == v,
{
    let k = half(to) / half(from);
    lemma_half_ratio(from, to);
    if half(to) == half(from) {
        lemma_half_ratio(to, from);
        assert(v * k == v) by (nonlinear_arith)
            requires
                k == 1,
        ;
        assert(scale(v, from, to) == v);
        assert(scale(v, to, from) == v);
    } else {
        let w = scale(v, from, to);
        assert(w == v * k);
        assert(scale(w, to, from) == trunc_div(w, k));
        if v < 0 {
            assert(v * k < 0) by (nonlinear_arith)
                requires
                    k >= 1,
                    v < 0,
            ;
            assert((-(v * k)) / k == -v) by (nonlinear_arith)
                requires
                    k >= 1,
                    v < 0,
            ;
        } else {
            assert(v * k >= 0) by (nonlinear_arith)
                requires
                    k >= 1,
                    v >= 0,
            ;
            assert((v * k) / k == v) by (nonlinear_arith)
                requires
                    k >= 1,
                    v >= 0,
            ;
        }
    }
}

/// The integer samples of `values`, of type `t`, as words.
pub open spec fn words_of_ints(values: Seq<i32>, t: SampleType) -> Seq<u64> {
    Seq::new(values.len(), |i: int| word_of(values[i] as int, t) as u64)
}

impl Signal {
    /// Builds a signal of integer type `t` from frame-major samples.
    pub fn from_ints(t: SampleType, num_channels: u16, values: &[i32]) -> (r: Result<Signal, WavError>)
        ensures
            !t.spec_is_int() ==> r == Err::<Signal, WavError>(WavError::UnsupportedEncoding),
            t.spec_is_int() && num_channels == 0 ==> r == Err::<Signal, WavError>(
                WavError::ShapeMismatch,
            ),
            t.spec_is_int() && num_channels > 0 && values@.len() % (num_channels as nat) != 0
                ==> r == Err::<Signal, WavError>(WavError::IncompleteFrame),
            t.spec_is_int() && num_channels > 0 && values@.len() % (num_channels as nat) == 0
                ==> (r is Err <==> exists|i: int|
                0 <= i < values@.len() && !in_range(#[trigger] values@[i] as int, t)),
            r matches Err(e) ==> e != WavError::MalformedHeader && e != WavError::IoFailure,
            r matches Ok(s) ==> {
                &&& s.sample_type == t
                &&& s.num_channels == num_channels
                &&& s.words@ == words_of_ints(values@, t)
                &&& s.wf()
            },
    {
        if !t.is_int() {
            return Err(WavError::UnsupportedEncoding);
        }
        if num_channels == 0 {
            return Err(WavError::ShapeMismatch);
        }
        if values.len() % num_channels as usize != 0 {
            return Err(WavError::IncompleteFrame);
        }
        let h = half_of(t);
        let mut words: Vec<u64> = Vec::new();
        let mut i: usize = 0;
        while i < values.len()
            invariant
                t.spec_is_int(),
                num_channels > 0,
                values@.len() % (num_channels as nat) == 0,
                h == half(t),
                i <= values@.len(),
                words@.len() == i,
                forall|k: int| 0 <= k < i ==> in_range(#[trigger] values@[k] as int, t),
                forall|k: int|
                    0 <= k < i ==> #[trigger] words@[k] == word_of(values@[k] as int, t) as u64,
                forall|k: int| 0 <= k < i ==> #[trigger] words@[k] < pow256(t.spec_width()),
            decreases values@.len() - i,
        {
            let v = values[i];
            if (v as i64) < -h || (v as i64) >= h {
                return Err(WavError::UnsupportedEncoding);
            }
            let wd = int_to_word(v, t);
            words.push(wd);
            i = i + 1;
        }
        let s = Signal { sample_type: t, num_channels, words };
        proof {
            assert(s.words@ =~= words_of_ints(values@, t));
            assert(words_fit(s.words@, t.spec_width()));
        }
        Ok(s)
    }

    /// The samples of an integer signal scaled to the integer type `to`, frame-major;
    /// `None` when either type is a float type.
    pub fn ints_as(&self, to: SampleType) -> (r: Option<Vec<i32>>)
        requires
            self.wf(),
        ensures
            !(self.sample_type.spec_is_int() && to.spec_is_int()) ==> r is None,
            self.sample_type.spec_is_int() && to.spec_is_int() ==> {
                &&& r is Some
                &&& r->Some_0@.len() == self.words@.len()
                &&& forall|i: int|
                    0 <= i < self.words@.len() ==> #[trigger] r->Some_0@[i] == scale(
                        signed_of(self.words@[i] as nat, self.sample_type),
                        self.sample_type,
                        to,
                    )
            },
    {
        let t = self.sample_type;
        if !t.is_int() || !to.is_int() {
            return None;
        }
        let mut out: Vec<i32> = Vec::new();
        let mut i: usize = 0;
        while i < self.words.len()
            invariant
                self.wf(),
                t == self.sample_type,
                t.spec_is_int(),
                to.spec_is_int(),
                i <= self.words@.len(),
                out@.len() == i,
                forall|k: int|
                    0 <= k < i ==> #[trigger] out@[k] == scale(
                        signed_of(self.words@[k] as nat, t),
                        t,
                        to,
                    ),
            decreases self.words@.len() - i,
        {
            let word = self.words[i];
            let v = word_to_int(word, t);
            out.push(convert_int(v, t, to));
            i = i + 1;
        }
        Some(out)
    }
}

} // verus!
