use parasol::ai::svc::{consistent, BagSvc, LoadError, SvcAi};
use parasol::ai::Error;

struct Model {
    features: u32,
    counts: Vec<u32>,
    total: u64,
    words: usize,
}

fn good() -> Model {
    Model { features: 2, counts: vec![1, 2], total: 3, words: 4 + 8 + 6 + 3 }
}

fn bytes(model: &Model) -> Vec<u8> {
    let mut out = b"SVCB".to_vec();
    out.extend(1u32.to_le_bytes());
    out.extend(model.features.to_le_bytes());
    out.extend((model.counts.len() as u32).to_le_bytes());
    out.extend(model.total.to_le_bytes());
    let head = 2 * model.features as usize + 4 * model.counts.len();
    for i in 0..model.words {
        if i == head {
            for count in &model.counts {
                out.extend(count.to_le_bytes());
            }
        }
        out.extend((i as f64 + 0.5).to_le_bytes());
    }
    out
}

fn word(i: usize) -> u64 {
    (i as f64 + 0.5).to_bits()
}

#[test]
fn model_is_read_section_by_section() {
    let bytes = bytes(&good());
    assert!(consistent(&bytes));
    let bag = BagSvc::from_bytes(&bytes).unwrap();
    assert_eq!((bag.n_features, bag.n_svcs), (2, 2));
    assert_eq!(bag.scaler_mean, vec![word(0), word(1)]);
    assert_eq!(bag.scaler_scale, vec![word(2), word(3)]);
    assert_eq!(bag.gamma, vec![word(4), word(5)]);
    assert_eq!(bag.intercept, vec![word(6), word(7)]);
    assert_eq!(bag.prob_a, vec![word(8), word(9)]);
    assert_eq!(bag.prob_b, vec![word(10), word(11)]);
    assert_eq!(bag.sv_offsets, vec![0, 1, 3]);
    assert_eq!(bag.support_vectors, (12..18).map(word).collect::<Vec<u64>>());
    assert_eq!(bag.dual_coef, (18..21).map(word).collect::<Vec<u64>>());
}

#[test]
fn short_model_is_refused() {
    let whole = bytes(&good());
    for cut in 0..whole.len() {
        let part = &whole[..cut];
        assert!(consistent(part));
        match BagSvc::from_bytes(part) {
            Err(LoadError::TooShort { expected, got }) => {
                assert_eq!(got, cut);
                assert!(expected > cut && expected <= whole.len());
            }
            _ => panic!("model of {cut} bytes was not refused"),
        }
    }
}

#[test]
fn section_that_is_cut_off_says_what_it_needs() {
    let whole = bytes(&good());
    let expected_at = |cut: usize| match BagSvc::from_bytes(&whole[..cut]).unwrap_err() {
        LoadError::TooShort { expected, .. } => expected,
        other => panic!("{other:?}"),
    };
    assert_eq!(expected_at(0), 4);
    assert_eq!(expected_at(4), 8);
    assert_eq!(expected_at(23), 24);
    assert_eq!(expected_at(24), 40);
    assert_eq!(expected_at(55), 56);
    assert_eq!(expected_at(120), 124);
    assert_eq!(expected_at(124), 128);
    assert_eq!(expected_at(128), 176);
    assert_eq!(expected_at(199), 200);
    assert_eq!(whole.len(), 200);
}

#[test]
fn foreign_file_is_refused() {
    let mut bytes = bytes(&good());
    bytes[3] = b'F';
    assert!(consistent(&bytes));
    assert_eq!(BagSvc::from_bytes(&bytes).unwrap_err(), LoadError::BadMagic(*b"SVCF"));
}

#[test]
fn later_version_is_refused() {
    let mut bytes = bytes(&good());
    bytes[5] = 1;
    assert_eq!(BagSvc::from_bytes(&bytes).unwrap_err(), LoadError::BadVersion(257));
}

#[test]
fn bytes_that_are_left_over_are_refused() {
    let mut bytes = bytes(&good());
    bytes.extend([0, 0, 0]);
    assert!(consistent(&bytes));
    assert_eq!(BagSvc::from_bytes(&bytes).unwrap_err(), LoadError::TrailingBytes(3));
}

#[test]
fn counts_that_do_not_add_up_are_told() {
    let mut model = good();
    model.total = 4;
    assert!(!consistent(&bytes(&model)));
    model = good();
    model.counts = vec![3, 3];
    assert!(!consistent(&bytes(&model)));
    let mut huge = good();
    huge.features = u32::MAX;
    assert!(consistent(&bytes(&huge)));
}

#[test]
fn load_errors_are_told_in_words() {
    assert_eq!(
        LoadError::TooShort { expected: 24, got: 7 }.message(),
        "buffer too short: expected at least 24 bytes, got 7"
    );
    assert_eq!(
        LoadError::BadMagic([83, 0, 255, 10]).message(),
        "bad magic: expected b\"SVCB\", got [83, 0, 255, 10]"
    );
    assert_eq!(LoadError::BadVersion(2).message(), "unsupported version: 2");
    assert_eq!(LoadError::TrailingBytes(3).message(), "trailing bytes after parsing: 3");
}

#[test]
fn model_that_cannot_be_loaded_is_named() {
    let error = SvcAi::k1(b"SVCX").unwrap_err();
    assert_eq!(
        error,
        Error::Other("svc_k1 model load: bad magic: expected b\"SVCB\", got [83, 86, 67, 88]".to_owned())
    );
    let error = SvcAi::ek1(b"").unwrap_err();
    assert_eq!(
        error,
        Error::Other(
            "svc_ek1 model load: buffer too short: expected at least 4 bytes, got 0".to_owned()
        )
    );
}

fn shown(portfolio: &[parasol::scheduler::SolverInfo]) -> Vec<(&str, usize)> {
    portfolio.iter().map(|info| (info.name.as_str(), info.cores)).collect()
}

#[test]
fn class_zero_gives_all_cores_to_one_solver() {
    let ai = SvcAi::k1(&bytes(&good())).unwrap();
    assert_eq!(shown(&ai.portfolio_for(0)), vec![("cp-sat", 8)]);
    assert_eq!(
        shown(&ai.portfolio_for(1)),
        vec![
            ("cp-sat", 1),
            ("org.chuffed.chuffed", 1),
            ("org.gecode.gecode", 2),
            ("org.minizinc.mip.gurobi", 2),
            ("org.picat-lang.picat", 1),
            ("yuck", 1),
        ]
    );
}

#[test]
fn other_model_has_its_own_portfolio() {
    let ai = SvcAi::ek1(&bytes(&good())).unwrap();
    assert_eq!(
        shown(&ai.portfolio_for(1)),
        vec![
            ("cp-sat", 1),
            ("dexter", 1),
            ("nl.tudelft.algorithmics.pumpkin", 1),
            ("org.choco.choco", 1),
            ("org.minizinc.mip.gurobi", 2),
            ("org.picat-lang.picat", 1),
            ("yuck", 1),
        ]
    );
}

#[test]
fn wrong_number_of_features_is_refused() {
    let ai = SvcAi::k1(&bytes(&good())).unwrap();
    assert!(ai.check_feature_count(2).is_ok());
    assert_eq!(
        ai.check_feature_count(95).unwrap_err(),
        Error::Other("SVC AI expected 2 features, got 95".to_owned())
    );
}
