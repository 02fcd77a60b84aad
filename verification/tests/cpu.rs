use witchhat_core::cpu::{features, Architecture, CpuFeatures, CpuProbe};

fn probe(architecture: Architecture) -> CpuProbe {
    CpuProbe {
        architecture,
        sse42: true,
        avx2: true,
        avx512f: false,
        neon: true,
    }
}

#[test]
fn detect_is_stable_across_calls() {
    let mut known = None;
    assert_eq!(
        features(&mut known, probe(Architecture::X86_64)),
        features(&mut known, probe(Architecture::X86_64))
    );
}

#[test]
fn first_probe_is_kept() {
    let mut known = None;
    let first = features(&mut known, probe(Architecture::Aarch64));
    let later = features(&mut known, probe(Architecture::X86_64));
    assert_eq!(first, later);
    assert_eq!(
        first,
        CpuFeatures {
            sse42: false,
            avx2: false,
            avx512f: false,
            neon: true,
        }
    );
}

#[test]
fn each_architecture_reports_its_own_features() {
    assert_eq!(
        CpuFeatures::detect(probe(Architecture::X86_64)),
        CpuFeatures {
            sse42: true,
            avx2: true,
            avx512f: false,
            neon: false,
        }
    );
    assert_eq!(
        CpuFeatures::detect(probe(Architecture::Other)),
        CpuFeatures::default()
    );
}

#[test]
fn features_as_text() {
    assert_eq!(
        CpuFeatures::detect(probe(Architecture::X86_64)).describe(),
        "CpuFeatures(sse42=true, avx2=true, avx512f=false, neon=false)"
    );
}
