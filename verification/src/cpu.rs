//! Processor features.
//!
//! What a processor offers may change how fast a result comes, never the result. Which
//! features there are is found out once and kept; asking again gives what was kept.

use vstd::prelude::*;
use vstd::string::StringExecFns;

verus! {

/// The features of the processor. Those of an architecture other than the running one are
/// absent.
#[derive(Debug, Clone, Copy, PartialEq, Eq, Structural)]
pub struct CpuFeatures {
    /// SSE4.2, on x86-64.
    pub sse42: bool,
    /// AVX2, on x86-64.
    pub avx2: bool,
    /// AVX-512 Foundation, on x86-64.
    pub avx512f: bool,
    /// NEON, on AArch64.
    pub neon: bool,
}

/// The architectures that have features to look for.
#[derive(Debug, Clone, Copy, PartialEq, Eq, Structural)]
pub enum Architecture {
    X86_64,
    Aarch64,
    Other,
}

/// What looking at the processor showed.
#[derive(Debug, Clone, Copy, PartialEq, Eq, Structural)]
pub struct CpuProbe {
    pub architecture: Architecture,
    pub sse42: bool,
    pub avx2: bool,
    pub avx512f: bool,
    pub neon: bool,
}

/// The features that a look at the processor stands for.
pub open spec fn detected(probe: CpuProbe) -> CpuFeatures {
    let x86 = probe.architecture is X86_64;
    CpuFeatures {
        sse42: x86 && probe.sse42,
        avx2: x86 && probe.avx2,
        avx512f: x86 && probe.avx512f,
        neon: probe.architecture is Aarch64 && probe.neon,
    }
}

impl Default for CpuFeatures {
    fn default() -> (r: Self)
        ensures
            r == (CpuFeatures { sse42: false, avx2: false, avx512f: false, neon: false }),
    {
        CpuFeatures { sse42: false, avx2: false, avx512f: false, neon: false }
    }
}

impl CpuFeatures {
    /// The features that a look at the processor stands for.
    pub fn detect(probe: CpuProbe) -> (r: Self)
        ensures
            r == detected(probe),
    {
        match probe.architecture {
            Architecture::X86_64 => CpuFeatures {
                sse42: probe.sse42,
                avx2: probe.avx2,
                avx512f: probe.avx512f,
                neon: false,
            },
            Architecture::Aarch64 => CpuFeatures {
                sse42: false,
                avx2: false,
                avx512f: false,
                neon: probe.neon,
            },
            Architecture::Other => CpuFeatures::default(),
        }
    }
}

/// A flag as text.
pub open spec fn flag_text(flag: bool) -> Seq<char> {
    if flag {
        "true"@
    } else {
        "false"@
    }
}

/// Features as text.
pub open spec fn features_text(f: CpuFeatures) -> Seq<char> {
    "CpuFeatures(sse42="@ + flag_text(f.sse42) + ", avx2="@ + flag_text(f.avx2) + ", avx512f="@
        + flag_text(f.avx512f) + ", neon="@ + flag_text(f.neon) + ")"@
}

fn flag(set: bool) -> (s: &'static str)
    ensures
        s@ == flag_text(set),
{
    if set {
        "true"
    } else {
        "false"
    }
}

impl CpuFeatures {
    /// The features as text.
    pub fn describe(&self) -> (s: String)
        ensures
            s@ == features_text(*self),
    {
        let mut s = "CpuFeatures(sse42=".to_owned();
        s.append(flag(self.sse42));
        s.append(", avx2=");
        s.append(flag(self.avx2));
        s.append(", avx512f=");
        s.append(flag(self.avx512f));
        s.append(", neon=");
        s.append(flag(self.neon));
        s.append(")");
        s
    }
}

/// The features kept after a look at the processor: those kept before, where there are any.
pub open spec fn kept(known: Option<CpuFeatures>, probe: CpuProbe) -> CpuFeatures {
    match known {
        Some(f) => f,
        None => detected(probe),
    }
}

/// The features of the processor: the known ones, or else those that the probe shows, which
/// are known from then on.
pub fn features(known: &mut Option<CpuFeatures>, probe: CpuProbe) -> (r: CpuFeatures)
    ensures
        r == kept(*old(known), probe),
        *final(known) == Some(r),
{
    match *known {
        Some(f) => f,
        None => {
            let f = CpuFeatures::detect(probe);
            *known = Some(f);
            f
        },
    }
}

/// Every call after the first gives what the first gave, whatever its probe shows.
pub proof fn law_features_are_stable(known: Option<CpuFeatures>, first: CpuProbe, later: CpuProbe)
    ensures
        kept(Some(kept(known, first)), later) == kept(known, first),
{
}

/// An architecture that is not probed has no features.
pub proof fn law_unknown_architecture_has_no_features(probe: CpuProbe)
    requires
        probe.architecture is Other,
    ensures
        detected(probe) == (CpuFeatures { sse42: false, avx2: false, avx512f: false, neon: false }),
{
}

/// On each architecture the features are those that its own part of the probe shows, and none of
/// the other's.
pub proof fn law_features_are_those_probed(probe: CpuProbe)
    ensures
        probe.architecture is X86_64 ==> {
            &&& detected(probe).sse42 == probe.sse42
            &&& detected(probe).avx2 == probe.avx2
            &&& detected(probe).avx512f == probe.avx512f
            &&& !detected(probe).neon
        },
        probe.architecture is Aarch64 ==> {
            &&& detected(probe).neon == probe.neon
            &&& !detected(probe).sse42
            &&& !detected(probe).avx2
            &&& !detected(probe).avx512f
        },
        kept(None, probe) == detected(probe),
{
}

/// The text of features tells every flag: features with the same text are the same.
pub proof fn law_text_tells_features_apart(a: CpuFeatures, b: CpuFeatures)
    requires
        features_text(a) == features_text(b),
    ensures
        a == b,
{
    reveal_strlit("true");
    reveal_strlit("false");
    let (x, y) = (features_text(a), features_text(b));
    let p = "CpuFeatures(sse42="@.len() as int;
    assert(x[p] == flag_text(a.sse42)[0]);
    assert(y[p] == flag_text(b.sse42)[0]);
    let q = p + flag_text(a.sse42).len() + ", avx2="@.len();
    assert(x[q] == flag_text(a.avx2)[0]);
    assert(y[q] == flag_text(b.avx2)[0]);
    let r = q + flag_text(a.avx2).len() + ", avx512f="@.len();
    assert(x[r] == flag_text(a.avx512f)[0]);
    assert(y[r] == flag_text(b.avx512f)[0]);
    let t = r + flag_text(a.avx512f).len() + ", neon="@.len();
    assert(x[t] == flag_text(a.neon)[0]);
    assert(y[t] == flag_text(b.neon)[0]);
}

} // verus!
