use cert_parser::bundle::generate_nginx_format;
use cert_parser::chain::build_certificate_chain;
use cert_parser::record::{CertificateInfo, NameAttributes};

fn empty_name() -> NameAttributes {
    NameAttributes { cn: None, c: None, l: None, st: None, o: None, ou: None }
}

fn rec(subject: &str, issuer: &str, is_ca: bool, is_self_signed: bool) -> CertificateInfo {
    CertificateInfo {
        subject: empty_name(),
        issuer: empty_name(),
        serial_number: "01".to_string(),
        valid_from: String::new(),
        valid_to: String::new(),
        subject_common_name: subject.to_string(),
        issuer_common_name: issuer.to_string(),
        is_ca,
        is_self_signed,
    }
}

#[test]
fn empty_input_gives_no_chains() {
    assert!(build_certificate_chain(&vec![]).is_empty());
}

#[test]
fn leaf_links_up_to_root() {
    let recs = vec![
        rec("Root", "Root", true, true),
        rec("leaf.example", "Intermediate", false, false),
        rec("Intermediate", "Root", true, false),
    ];
    let chains = build_certificate_chain(&recs);
    assert_eq!(chains, vec![vec![0], vec![1, 2, 0]]);
}

#[test]
fn chains_are_deterministic() {
    let recs = vec![
        rec("a", "CA", false, false),
        rec("CA", "R", true, false),
        rec("CA", "R", true, false),
        rec("R", "R", true, true),
    ];
    assert_eq!(build_certificate_chain(&recs), build_certificate_chain(&recs));
}

#[test]
fn tie_break_takes_lowest_index() {
    let recs = vec![
        rec("a", "CA", false, false),
        rec("CA", "R", true, false),
        rec("CA", "R", true, false),
        rec("R", "R", true, true),
    ];
    assert_eq!(build_certificate_chain(&recs), vec![vec![0, 1, 3], vec![3]]);
}

#[test]
fn self_signed_ends_the_chain() {
    let recs = vec![
        rec("a", "S", false, false),
        rec("S", "S", true, true),
        rec("S", "X", true, false),
    ];
    let chains = build_certificate_chain(&recs);
    assert_eq!(chains, vec![vec![0, 1], vec![1]]);
    for c in &chains {
        for (k, &i) in c.iter().enumerate() {
            if recs[i].is_self_signed {
                assert_eq!(k, c.len() - 1);
            }
        }
    }
}

#[test]
fn every_non_ca_starts_a_chain() {
    let recs = vec![
        rec("x", "y", false, false),
        rec("y", "z", true, false),
        rec("w", "y", false, false),
    ];
    let chains = build_certificate_chain(&recs);
    assert_eq!(chains, vec![vec![0, 1], vec![2, 1]]);
}

#[test]
fn mutual_issuers_do_not_loop() {
    let recs = vec![rec("A", "B", false, false), rec("B", "A", false, false)];
    let chains = build_certificate_chain(&recs);
    assert_eq!(chains, vec![vec![0, 1], vec![1, 0]]);
}

#[test]
fn issuer_naming_itself_is_not_revisited() {
    let recs = vec![rec("A", "A", false, false)];
    assert_eq!(build_certificate_chain(&recs), vec![vec![0]]);
}

#[test]
fn bundle_composition_example() {
    let pems = vec!["B".to_string(), "unused".to_string(), "A".to_string()];
    let out = generate_nginx_format(vec![2, 0], pems, Some("K".to_string()));
    assert_eq!(out, "A\nB\n\nK");
}

#[test]
fn bundle_without_key_and_with_missing_index() {
    let pems = vec!["  first\n".to_string(), "second".to_string()];
    let out = generate_nginx_format(vec![0, 7, 1], pems, None);
    assert_eq!(out, "first\n\nsecond");
    assert_eq!(generate_nginx_format(vec![], vec![], None), "");
    assert_eq!(generate_nginx_format(vec![], vec![], Some(" K \n".to_string())), "K");
}
