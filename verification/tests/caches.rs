//! Cache files: names, envelopes, archives, versions, directories and dependency order.

use xc_ccm_hp::components::{structural_check, StructuralFault};
use xc_ccm_hp::config::{CacheMode, CcmParityPolicy};
use xc_ccm_hp::decimal::Decimal;
use xc_ccm_hp::eigvec_cache;
use xc_ccm_hp::envelope::{
    compress_to_zip, read_zip_text, version_is_older, write_object, JsonField, JsonObject,
};
use xc_ccm_hp::float::HpFloat;
use xc_ccm_hp::identity::ArtifactQuality;
use xc_ccm_hp::lexical::{canonical_dependency_refs, order_texts, sort_texts, ArtifactRef};
use xc_ccm_hp::limbs::Order;
use xc_ccm_hp::outcome::{InverseIterationDiagnostics, ShiftedRefinementOutcome};
use xc_ccm_hp::payload::{HpScalar, PortableInverseIterationDiagnostics};
use xc_ccm_hp::tau_cache;
use xc_ccm_hp::tau_cache::{FileKind, TauCacheFileStatus, TauCacheVerifyReport};

const OLDEST: &str = "0.13.0";

fn num(p: u32, x: i64) -> HpFloat {
    HpFloat::from_i64(p, x)
}

fn dec(p: u32, text: &str) -> HpFloat {
    HpFloat::from_decimal(p, &Decimal::parse(text).unwrap())
}

fn scalar(p: u32, text: &str) -> HpScalar {
    HpScalar::written(text.to_owned(), &dec(p, text))
}

#[test]
fn weil_eigvec_cache_filename_keys_on_force_even() {
    let name = |policy| eigvec_cache::cache_filename("1000", 800, 6660, policy);
    let forced = name(CcmParityPolicy::EvenSector);
    let natural = name(CcmParityPolicy::Natural);
    let adaptive = name(CcmParityPolicy::AdaptiveEven);
    assert_eq!(forced, "weil_eigvec_lambda_sq1000_nmodes800_prec6660_even_sector.json");
    assert_eq!(natural, "weil_eigvec_lambda_sq1000_nmodes800_prec6660_natural.json");
    assert_eq!(adaptive, "weil_eigvec_lambda_sq1000_nmodes800_prec6660.json");
    assert_ne!(forced, natural);
    assert_ne!(forced, adaptive);
    assert_ne!(natural, adaptive);
}

#[test]
fn tau_cache_filename_parser() {
    let r = tau_cache::parse_filename("lambda_sq13_nmodes120_prec3338.json").unwrap();
    assert_eq!(r.lambda, "13");
    assert_eq!(r.n_modes, 120);
    assert_eq!(r.prec, 3338);
    assert!(matches!(r.kind, FileKind::Json));

    let r = tau_cache::parse_filename("lambda_sq100_nmodes500_prec3338.json.zip").unwrap();
    assert_eq!(r.lambda, "100");
    assert_eq!(r.n_modes, 500);
    assert_eq!(r.prec, 3338);
    assert!(matches!(r.kind, FileKind::Zip));

    let r =
        tau_cache::parse_filename("lambda_sq1000_nmodes800_prec3338.json.zip.part00").unwrap();
    assert_eq!(r.lambda, "1000");
    assert_eq!(r.n_modes, 800);
    assert_eq!(r.prec, 3338);
    assert!(matches!(r.kind, FileKind::Part));
    let r =
        tau_cache::parse_filename("lambda_sq1000_nmodes800_prec3338.json.zip.part42").unwrap();
    assert!(matches!(r.kind, FileKind::Part));

    // Wrong base name.
    assert!(tau_cache::parse_filename("foo.json").is_none());
    // Missing component.
    assert!(tau_cache::parse_filename("lambda_sq13_nmodes120.json").is_none());
    // Non-digit part suffix.
    assert!(
        tau_cache::parse_filename("lambda_sq13_nmodes120_prec3338.json.zip.partAA").is_none()
    );
    // Empty part suffix.
    assert!(tau_cache::parse_filename("lambda_sq13_nmodes120_prec3338.json.zip.part").is_none());
}

#[test]
fn written_names_are_read_back() {
    let name = tau_cache::cache_filename("2.5", 7, 256);
    assert_eq!(name, "lambda_sq2.5_nmodes7_prec256.json");
    assert_eq!(tau_cache::archive_name(&name), "lambda_sq2.5_nmodes7_prec256.json.zip");
    let part = tau_cache::part_name(&name, 3);
    assert_eq!(part, "lambda_sq2.5_nmodes7_prec256.json.zip.part03");
    let read = tau_cache::parse_filename(&part).unwrap();
    assert_eq!(read.lambda, "2.5");
    assert_eq!(read.n_modes, 7);
    assert_eq!(read.prec, 256);
    assert!(tau_cache::is_part_of(&part, &name));
    assert!(!tau_cache::is_part_of(&tau_cache::archive_name(&name), &name));
}

#[test]
fn tau_cache_structural_check() {
    let prec = 128;
    let n_modes = 3;
    let dim = 2 * n_modes + 1;
    let mut sym: Vec<HpFloat> = (0..dim * dim).map(|_| num(prec, 0)).collect();
    for i in 0..dim {
        for j in i..dim {
            let val = num(prec, (i + j + 1) as i64);
            sym[i * dim + j] = val.clone();
            sym[j * dim + i] = val;
        }
    }
    assert!(
        structural_check(&sym, n_modes, prec).is_none(),
        "symmetric matrix should pass"
    );

    let mut short = sym.clone();
    short.pop();
    assert!(
        structural_check(&short, n_modes, prec).is_some(),
        "wrong length should be rejected"
    );

    let mut asym = sym.clone();
    asym[1] = num(prec, 99);
    assert!(
        structural_check(&asym, n_modes, prec).is_some(),
        "asymmetric matrix should be rejected"
    );
    assert!(matches!(
        structural_check(&asym, n_modes, prec),
        Some(StructuralFault::Asymmetric { row: 0, column: 1, .. })
    ));
    assert_eq!(
        structural_check(&asym, n_modes, prec).unwrap().message("98", "0.1"),
        "asymmetry at (0,1): τ[0,1] - τ[1,0] = 98 (tol 0.1)"
    );
    assert_eq!(
        structural_check(&vec![num(prec, 1)], 1, prec).unwrap().message("", ""),
        "matrix length 1 != expected 3², = 9"
    );

    let mut with_nan = sym.clone();
    with_nan[5] = HpFloat::nan(prec);
    let fault = structural_check(&with_nan, n_modes, prec);
    assert!(fault.is_some(), "NaN entry should be rejected");
    assert!(matches!(fault, Some(StructuralFault::NotANumber { at: 5 })));
    let mut unbounded = sym.clone();
    unbounded[6] = HpFloat::infinity(prec, true);
    assert!(matches!(
        structural_check(&unbounded, n_modes, prec),
        Some(StructuralFault::Infinite { at: 6 })
    ));
}

fn tau_payload(schema: &str, version: &str) -> String {
    let strs: Vec<String> = (0..9).map(|i| format!("\"{i}\"")).collect();
    format!(
        "{{{schema}\"toolkit_version\":\"{version}\",\"lambda_sq\":13,\"n_modes\":1,\
         \"precision_bits\":64,\"matrix\":[{}]}}",
        strs.join(",")
    )
}

#[test]
fn tau_cache_rejects_stale_toolkit_version() {
    assert!(
        tau_cache::parse_json(&tau_payload("", "0.0.1"), 1, OLDEST).is_none(),
        "tau parser should reject a stale toolkit_version=0.0.1"
    );
    let one = "\"schema_version\":1,";
    assert!(tau_cache::parse_json(&tau_payload(one, "0.0.1"), 1, OLDEST).is_none());
    assert_eq!(tau_cache::parse_json(&tau_payload(one, "0.13.0"), 1, OLDEST).unwrap().len(), 9);
    assert!(tau_cache::parse_json(&tau_payload(one, "0.13.0"), 2, OLDEST).is_none());
    assert!(tau_cache::parse_json("{ not json", 1, OLDEST).is_none());
}

#[test]
fn tau_cache_rejects_other_schemas() {
    for schema in ["", "\"schema_version\":2,", "\"schema_version\":\"1\","] {
        assert!(tau_cache::parse_json(&tau_payload(schema, "0.13.0"), 1, OLDEST).is_none());
    }
    let wrapped = "\"schema_version\":4294967297,";
    assert!(tau_cache::parse_json(&tau_payload(wrapped, "0.13.0"), 1, OLDEST).is_none());
}

#[test]
fn part_names_are_picked_and_ordered() {
    let names: Vec<String> = ["e.json.zip.part02", "x.json.zip.part00", "e.json.zip.part00",
        "e.json.zip", "e.json.zip.part10", "e.json.zip.part01"]
    .iter()
    .map(|n| n.to_string())
    .collect();
    assert_eq!(
        tau_cache::part_names(&names, "e.json"),
        vec!["e.json.zip.part00", "e.json.zip.part01", "e.json.zip.part02", "e.json.zip.part10"]
    );
    assert!(tau_cache::part_names(&names, "f.json").is_empty());
    assert_eq!(sort_texts(vec!["b".to_owned(), "a".to_owned()]), vec!["a", "b"]);
}

#[test]
fn versions_are_compared_by_their_numbers() {
    assert!(version_is_older("0.9.9", "0.13.0"));
    assert!(!version_is_older("0.13.0", "0.13.0"));
    assert!(version_is_older("0.13", "0.13.1"));
    assert!(!version_is_older("1.0.0", "0.99.99"));
    assert!(version_is_older("junk", "0.0.1"));
}

#[test]
fn objects_are_written_and_read_back() {
    let inner = write_object(&vec![
        ("flag".to_owned(), JsonField::Flag(true)),
        ("nothing".to_owned(), JsonField::Null),
        ("word".to_owned(), JsonField::Text("a \"quoted\" \\ word".to_owned())),
    ]);
    let text = write_object(&vec![
        ("count".to_owned(), JsonField::Number(u64::MAX)),
        ("inner".to_owned(), JsonField::Object(inner)),
        ("lambda_sq".to_owned(), JsonField::Decimal("13.0".to_owned())),
        (
            "list".to_owned(),
            JsonField::List(vec![Some("1e-3".to_owned()), None, Some("x".to_owned())]),
        ),
        ("name".to_owned(), JsonField::Text("tau".to_owned())),
    ]);
    assert_eq!(
        text,
        "{\"count\":18446744073709551615,\
         \"inner\":{\"flag\":true,\"nothing\":null,\"word\":\"a \\\"quoted\\\" \\\\ word\"},\
         \"lambda_sq\":13.0,\"list\":[\"1e-3\",null,\"x\"],\"name\":\"tau\"}"
    );
    let read = JsonObject::parse(&text).unwrap();
    assert_eq!(read.number("count"), Some(u64::MAX));
    assert_eq!(read.text("name").unwrap(), "tau");
    assert_eq!(read.number("lambda_sq"), None);
    assert_eq!(read.list_len("list"), Some(3));
    assert!(read.texts("list", 3).is_none());
    assert!(read.text("missing").is_none());
    assert_eq!(write_object(&vec![("n".to_owned(), JsonField::Decimal("x".to_owned()))]), "");
    assert!(JsonObject::parse("[1]").is_none());
}

#[test]
fn saved_forms_read_back() {
    let entries: Vec<String> = (0..9).map(|i| format!("{i}.5e-10")).collect();
    let name = tau_cache::cache_filename("13", 1, 64);
    let json = tau_cache::serialize_to_json(&entries, "13.0", "integer", 1, 64, "0.13.0");
    let files = tau_cache::files_to_save(&json, &name, CacheMode::JsonZip);
    assert_eq!(files.len(), 1);
    assert_eq!(files[0].name, tau_cache::archive_name(&name));
    assert_ne!(files[0].bytes, json.as_bytes().to_vec());
    assert_eq!(
        tau_cache::read_single_zip(&files[0].bytes, &name, 1, OLDEST).unwrap(),
        entries
    );
    assert!(tau_cache::read_single_zip(&files[0].bytes, &name, 1, "0.14.0").is_none());
    assert!(tau_cache::read_single_zip(&files[0].bytes, "other.json", 1, OLDEST).is_none());
    assert!(tau_cache::read_single_zip(&vec![1, 2, 3], &name, 1, OLDEST).is_none());
    assert!(tau_cache::files_to_save(&json, &name, CacheMode::Off).is_empty());

    let parts = tau_cache::split_archive(files[0].bytes.clone(), &name, 50);
    assert!(parts.len() > 1);
    assert_eq!(parts[0].name, tau_cache::part_name(&name, 0));
    let pieces: Vec<Vec<u8>> = parts.into_iter().map(|f| f.bytes).collect();
    assert!(pieces.iter().all(|piece| piece.len() <= 50));
    assert_eq!(tau_cache::join_parts(&pieces), files[0].bytes);
    assert_eq!(
        tau_cache::read_split_zip_parts(&pieces, &name, 1, OLDEST).unwrap(),
        entries
    );
}

#[test]
fn archives_keep_their_text() {
    let text = "lambda \u{3bb}\u{b2} ".repeat(200);
    let bytes = compress_to_zip(&text, "entry.json");
    assert!(bytes.len() < text.len());
    assert_eq!(read_zip_text(&bytes, "entry.json").unwrap(), text);
    assert!(read_zip_text(&bytes, "missing.json").is_none());
}

#[test]
fn loading_prefers_the_single_archive() {
    let p = 64;
    let sound = || Some((0..9).map(|_| num(p, 1)).collect::<Vec<HpFloat>>());
    let other = || Some((0..9).map(|_| num(p, 2)).collect::<Vec<HpFloat>>());
    let broken = || Some(vec![num(p, 1)]);
    let load = |mode, single, split| tau_cache::loaded_form(mode, single, split, 1, p);
    assert_eq!(load(CacheMode::JsonZip, sound(), other()), sound());
    assert_eq!(load(CacheMode::JsonZip, broken(), other()), other());
    assert_eq!(load(CacheMode::JsonZip, None, broken()), None);
    assert_eq!(load(CacheMode::Off, sound(), other()), None);
}

#[test]
fn directories_are_planned_and_reported() {
    let p = 64;
    let names: Vec<String> = [
        "lambda_sq13_nmodes1_prec64.json.zip",
        "lambda_sq5_nmodes1_prec64.json.zip.part00",
        "lambda_sq5_nmodes1_prec64.json.zip.part01",
        "notes.txt",
    ]
    .iter()
    .map(|n| n.to_string())
    .collect();
    let lambdas: Vec<Option<String>> = names
        .iter()
        .map(|n| tau_cache::parse_filename(n).map(|parsed| parsed.lambda))
        .collect();
    let plan = tau_cache::plan_directory(&names, &lambdas);
    assert_eq!(plan.singles, vec![0]);
    assert_eq!(plan.sets.len(), 1);
    assert_eq!(plan.sets[0].lambda, "5");
    assert_eq!(plan.skipped, vec![3]);

    let sound: Vec<HpFloat> = (0..9).map(|_| num(p, 1)).collect();
    let mut lopsided = sound.clone();
    lopsided[1] = num(p, 7);
    let status = |tau: Option<&Vec<HpFloat>>| {
        tau_cache::file_status("path".to_owned(), "13".to_owned(), 1, p, None, tau)
    };
    let statuses = vec![
        status(Some(&sound)),
        status(Some(&lopsided)),
        status(None),
        tau_cache::skipped_status("dir/notes.txt".to_owned(), "notes.txt"),
    ];
    assert!(matches!(statuses[0], TauCacheFileStatus::Sound { .. }));
    assert!(matches!(statuses[1], TauCacheFileStatus::StructurallyInvalid { .. }));
    assert!(matches!(statuses[2], TauCacheFileStatus::LoadFailed { .. }));
    assert!(matches!(statuses[3], TauCacheFileStatus::Skipped { .. }));
    let report = TauCacheVerifyReport { directory: "dir".to_owned(), statuses };
    assert_eq!(report.ok_count(), 1);
    assert_eq!(report.failure_count(), 2);
    assert_eq!(report.failures(), vec![1, 2]);
    let empty = TauCacheVerifyReport { directory: "dir".to_owned(), statuses: vec![] };
    assert_eq!(empty.ok_count(), 0);
    assert_eq!(empty.failure_count(), 0);
}

fn evidence(p: u32) -> PortableInverseIterationDiagnostics {
    PortableInverseIterationDiagnostics {
        configured_step_limit: 2000,
        unshifted_steps: 7,
        unshifted_converged: true,
        final_relative_rayleigh_change: Some(scalar(p, "1e-30")),
        shifted_refinement: "accepted".to_owned(),
        final_relative_residual_norm: scalar(p, "1e-40"),
    }
}

fn eigvec_payload(version: &str, n_modes: usize, prec: u32, xi: &[String]) -> String {
    eigvec_cache::serialize_to_json(
        "13.0",
        "integer",
        n_modes,
        prec,
        version,
        &eigvec_cache::EigenpairTexts {
            eigenvalue: "1.5e-40".to_owned(),
            entries: xi.to_vec(),
            evidence: eigvec_cache::EvidenceTexts::of(&evidence(prec)),
        },
    )
}

#[test]
fn weil_eigvec_parse_json_validates() {
    let prec = 128;
    let n_modes = 3usize;
    let dim = 2 * n_modes + 1;
    let xi_strs: Vec<String> = (0..dim).map(|i| format!("{}", i + 1)).collect();
    let good = eigvec_payload("0.13.0", n_modes, prec, &xi_strs);
    let parsed = eigvec_cache::parse_json(&good, n_modes, prec, OLDEST)
        .expect("well-formed entry should parse");
    let read: Vec<HpScalar> = parsed.entries.iter().map(|t| scalar(prec, t)).collect();
    let pair = eigvec_cache::cached_pair(
        true,
        &scalar(prec, &parsed.eigenvalue),
        &read,
        &evidence(prec),
    )
    .expect("well-formed entry should parse");
    assert_eq!(pair.xi.len(), dim);
    assert_eq!(pair.eps_n, dec(prec, "1.5e-40"));
    assert_eq!(pair.xi[6], num(prec, 7));

    assert!(
        eigvec_cache::parse_json(&good, n_modes + 1, prec, OLDEST).is_none(),
        "n_modes mismatch should be rejected"
    );
    assert!(
        eigvec_cache::parse_json(&good, n_modes, prec + 1, OLDEST).is_none(),
        "precision mismatch should be rejected"
    );
    assert!(
        eigvec_cache::cached_pair(
            false,
            &scalar(prec, &parsed.eigenvalue),
            &read,
            &evidence(prec),
        )
        .is_none(),
        "lambda_sq mismatch should be rejected"
    );

    let short = eigvec_payload("0.13.0", n_modes, prec, &xi_strs[..dim - 1]);
    assert!(
        eigvec_cache::parse_json(&short, n_modes, prec, OLDEST).is_none(),
        "wrong xi length should be rejected"
    );

    let lost = vec![HpScalar { text: "?".to_owned(), reading: Err("bad digit".to_owned()) }];
    assert!(
        eigvec_cache::cached_pair(true, &scalar(prec, "1"), &lost, &evidence(prec)).is_none()
    );
    let mut idle = evidence(prec);
    idle.unshifted_steps = 0;
    assert!(eigvec_cache::cached_pair(true, &scalar(prec, "1"), &read, &idle).is_none());
}

#[test]
fn weil_eigvec_rejects_stale_toolkit_version() {
    let xi_strs: Vec<String> = (0..5).map(|i| format!("0.{}", i + 1)).collect();
    let quoted: Vec<String> = xi_strs.iter().map(|x| format!("\"{x}\"")).collect();
    let payload = format!(
        "{{\"schema_version\":1,\"toolkit_version\":\"0.0.1\",\"lambda_sq\":13.0,\"n_modes\":2,\
         \"precision_bits\":128,\"weil_min_eigenvalue\":\"1.23e-10\",\"xi\":[{}]}}",
        quoted.join(",")
    );
    assert!(
        eigvec_cache::parse_json(&payload, 2, 128, OLDEST).is_none(),
        "weil eigvec parser should reject a stale toolkit_version=0.0.1"
    );
    let complete = eigvec_payload("0.0.1", 2, 128, &xi_strs);
    assert!(eigvec_cache::parse_json(&complete, 2, 128, OLDEST).is_none());
    assert!(eigvec_cache::parse_json(&complete, 2, 128, "0.0.1").is_some());
}

#[test]
fn cached_pairs_have_their_own_schema_and_precision() {
    let xi: Vec<String> = (0..5).map(|i| format!("0.{}", i + 1)).collect();
    let good = eigvec_payload("0.13.0", 2, 128, &xi);
    assert!(eigvec_cache::parse_json(&good, 2, 128, OLDEST).is_some());
    for (from, to) in [
        ("\"schema_version\":2", "\"schema_version\":4294967298"),
        ("\"precision_bits\":128", "\"precision_bits\":4294967424"),
        ("\"shifted_refinement\":", "\"unknown\":1,\"shifted_refinement\":"),
        ("\"unshifted_steps\":7", "\"unshifted_steps\":-7"),
        ("\"unshifted_converged\":true", "\"unshifted_converged\":1"),
    ] {
        assert!(good.contains(from), "{good}");
        let changed = good.replace(from, to);
        assert!(eigvec_cache::parse_json(&changed, 2, 128, OLDEST).is_none(), "{changed}");
    }
    let unset = good.replace("\"final_relative_rayleigh_change\":\"1e-30\"",
        "\"final_relative_rayleigh_change\":null");
    let read = eigvec_cache::parse_json(&unset, 2, 128, OLDEST).unwrap();
    assert!(read.evidence.final_relative_rayleigh_change.is_none());
}

#[test]
fn saved_pairs_read_back() {
    let p = 128;
    let xi: Vec<String> = (0..5).map(|i| format!("0.{}1", i + 1)).collect();
    let payload = eigvec_payload("0.13.0", 2, p, &xi);
    let name = eigvec_cache::cache_filename("13", 2, p, CcmParityPolicy::EvenSector);
    let bytes = compress_to_zip(&payload, &name);
    let text = eigvec_cache::archive_text(&bytes, &name, CacheMode::JsonZip).unwrap();
    let pair = eigvec_cache::parse_json(&text, 2, p, OLDEST).unwrap();
    assert_eq!(pair.eigenvalue, "1.5e-40");
    assert_eq!(pair.entries, xi);
    assert!(eigvec_cache::archive_text(&bytes, &name, CacheMode::Off).is_none());
    assert!(eigvec_cache::archive_text(&bytes, &name, CacheMode::JsonOnly).is_none());
    let object = JsonObject::parse(&eigvec_cache::evidence_to_json(&pair.evidence)).unwrap();
    assert_eq!(object.number("configured_step_limit"), Some(2000));
    assert_eq!(object.text("shifted_refinement").unwrap(), "accepted");

    let e = &pair.evidence;
    let stored = PortableInverseIterationDiagnostics {
        configured_step_limit: e.configured_step_limit,
        unshifted_steps: e.unshifted_steps,
        unshifted_converged: e.unshifted_converged,
        final_relative_rayleigh_change:
            e.final_relative_rayleigh_change.as_ref().map(|t| scalar(p, t)),
        shifted_refinement: e.shifted_refinement.clone(),
        final_relative_residual_norm: scalar(p, &e.final_relative_residual_norm),
    };
    let entries: Vec<HpScalar> = pair.entries.iter().map(|t| scalar(p, t)).collect();
    let eigenvalue = scalar(p, &pair.eigenvalue);
    let loaded = eigvec_cache::cached_pair(true, &eigenvalue, &entries, &stored).unwrap();
    assert_eq!(loaded.eps_n, dec(p, "1.5e-40"));
    assert_eq!(loaded.xi[4], dec(p, "0.51"));
    assert_eq!(loaded.diagnostics.unshifted_steps, 7);
    assert_eq!(loaded.diagnostics.shifted_refinement, ShiftedRefinementOutcome::Accepted);
    assert_eq!(loaded.diagnostics.final_relative_residual_norm, dec(p, "1e-40"));
}

#[test]
fn warm_starts_take_the_precision_of_the_solve() {
    let unreadable = || HpScalar { text: "?".to_owned(), reading: Err("bad digit".to_owned()) };
    let start = vec![dec(64, "0.1"), num(64, 3)];
    let again = vec![scalar(96, "1.00000000000000000001e-1"), unreadable()];
    let raised = eigvec_cache::warm_start_at(&start, &again, 96);
    assert_eq!(raised[0].prec(), 96);
    assert!(raised[0].eqv(&start[0]));
    assert!(!raised[0].eqv(&dec(96, "1.00000000000000000001e-1")));
    assert!(raised[1].eqv(&num(64, 3)));

    let same = eigvec_cache::warm_start_at(&start, &again, 64);
    assert_eq!(same[0], start[0]);

    let start = vec![dec(96, "0.1"), dec(96, "0.2")];
    let again = vec![scalar(64, "0.1"), unreadable()];
    let lowered = eigvec_cache::warm_start_at(&start, &again, 64);
    assert_eq!(lowered[0], dec(64, "0.1"));
    assert_eq!(lowered[1], num(64, 0));
    assert_eq!(lowered[1].prec(), 64);
}

#[test]
fn lowered_starts_are_read_from_their_texts() {
    // A text that was cut at a tie reads as the even neighbour; the value itself lies above it.
    let entry = dec(8, "1.1328125");
    assert_eq!(entry.at(3), dec(3, "1.25"));
    let start = eigvec_cache::warm_start_at(&vec![entry], &vec![scalar(3, "1.125")], 3);
    assert_eq!(start[0], num(3, 1));
}

#[test]
fn decimals_with_enough_digits_read_back() {
    let tenth = dec(64, "0.1");
    for text in ["1.00000000000000000001e-1", "0.100000000000000000001355252715606880543"] {
        assert_eq!(dec(64, text), tenth);
        assert_ne!(dec(96, text), dec(96, "0.1"));
    }
    let power = num(10, 1024);
    assert_eq!(dec(10, "1023.8"), power);
    assert_ne!(dec(10, "1023.4"), power);
    assert_eq!(dec(10, "1024.9"), power);
    assert_ne!(dec(10, "1025.1"), power);
    assert_eq!(dec(5, "48"), num(5, 48));
    assert_eq!(dec(5, "-3e0"), num(5, -3));
    assert!(dec(5, "-0.0").is_zero() && dec(5, "-0.0").is_sign_negative());
}

#[test]
fn weil_eigvec_residual_check_discriminates() {
    let prec = 256;
    let n = 5;
    let mut a: Vec<HpFloat> = (0..n * n).map(|_| num(prec, 0)).collect();
    for i in 0..n {
        a[i * n + i] = num(prec, i as i64 + 1);
    }
    let eps = num(prec, 1);
    let unit = |k: usize| -> Vec<HpFloat> {
        (0..n).map(|i| num(prec, if i == k { 1 } else { 0 })).collect()
    };
    assert!(
        eigvec_cache::residual_ok(&a, n, &unit(0), &eps, prec),
        "genuine eigenpair should pass the residual check"
    );
    assert!(
        !eigvec_cache::residual_ok(&a, n, &unit(1), &eps, prec),
        "wrong eigenvector should fail the residual check"
    );
    let zero: Vec<HpFloat> = (0..n).map(|_| num(prec, 0)).collect();
    assert!(
        !eigvec_cache::residual_ok(&a, n, &zero, &eps, prec),
        "zero vector should fail the residual check"
    );
    assert!(eigvec_cache::relative_residual_norm(&a, n, &unit(0), &eps, prec).unwrap().is_zero());
}

#[test]
fn the_nearest_precision_is_started_from() {
    let file = |prec: u32| {
        format!("{}.zip", eigvec_cache::cache_filename("13", 4, prec, CcmParityPolicy::EvenSector))
    };
    let names = vec![file(100), file(260), file(256), file(250), "weil_eigvec.zip".to_owned()];
    let start = |target: u32, tolerance: u32| {
        eigvec_cache::nearest_warm_start(
            &names,
            "13",
            4,
            target,
            tolerance,
            CcmParityPolicy::EvenSector,
        )
    };
    assert_eq!(start(256, 64), Some(260));
    assert_eq!(start(248, 64), Some(250));
    assert_eq!(start(600, 64), None);
    assert_eq!(
        eigvec_cache::nearest_warm_start(&names, "13", 4, 256, 64, CcmParityPolicy::Natural),
        None
    );
}

#[test]
fn stopping_evidence_round_trips_and_is_checked() {
    let p = 128;
    let runtime = InverseIterationDiagnostics {
        configured_step_limit: 2_000,
        unshifted_steps: 7,
        unshifted_converged: true,
        final_relative_rayleigh_change: Some(dec(p, "1e-30")),
        shifted_refinement: ShiftedRefinementOutcome::Accepted,
        final_relative_residual_norm: dec(p, "1e-40"),
    };
    let stored = PortableInverseIterationDiagnostics::from_runtime(
        &runtime,
        "1e-30".to_owned(),
        "1e-40".to_owned(),
    );
    let read = stored.to_runtime().unwrap();
    assert_eq!(read.unshifted_steps, 7);
    assert_eq!(read.shifted_refinement, ShiftedRefinementOutcome::Accepted);
    assert_eq!(read.final_relative_rayleigh_change, runtime.final_relative_rayleigh_change);
    let refuse = |change: &dyn Fn(&mut PortableInverseIterationDiagnostics)| {
        let mut d = evidence(p);
        change(&mut d);
        d.to_runtime().unwrap_err().message().to_owned()
    };
    assert!(refuse(&|d| d.unshifted_steps = 3_000).contains("invalid step counts"));
    assert!(refuse(&|d| d.shifted_refinement = "perhaps".to_owned())
        .contains("unknown shifted outcome"));
    assert!(refuse(&|d| d.final_relative_residual_norm = scalar(128, "-1"))
        .contains("negative metric"));
    assert!(refuse(&|d| d.shifted_refinement = "not_attempted".to_owned())
        .contains("omit required stopping evidence"));
    assert!(refuse(&|d| {
        d.final_relative_residual_norm =
            HpScalar { text: "?".to_owned(), reading: Err("bad digit".to_owned()) };
    })
    .contains("bad digit"));
}

#[test]
fn dependencies_have_one_order() {
    let reference = |kind: &str, key: &str| ArtifactRef {
        kind: kind.to_owned(),
        logical_key: key.to_owned(),
        parameters_digest: "p".to_owned(),
        content_digest: "c".to_owned(),
    };
    let ordered = canonical_dependency_refs(vec![
        reference("b", "1"),
        reference("a", "2"),
        reference("a", "1"),
        reference("b", "1"),
    ]);
    assert!(ordered.iter().all(|r| r.required_quality == ArtifactQuality::Validated));
    let keys: Vec<(String, String)> =
        ordered.into_iter().map(|r| (r.artifact.kind, r.artifact.logical_key)).collect();
    assert_eq!(
        keys,
        vec![
            ("a".to_owned(), "1".to_owned()),
            ("a".to_owned(), "2".to_owned()),
            ("b".to_owned(), "1".to_owned()),
            ("b".to_owned(), "1".to_owned()),
        ]
    );
    assert_eq!(order_texts("a", "ab"), Order::Less);
    assert_eq!(order_texts("b", "ab"), Order::Greater);
    assert_eq!(order_texts("\u{3bb}", "\u{3bb}"), Order::Equal);
}
