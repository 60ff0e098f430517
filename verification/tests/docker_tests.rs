use wotwot::docker::{docker_services, parse_docker_stats};

fn cells(out: &str) -> Vec<(String, String)> {
    parse_docker_stats(out).into_iter().map(|d| (d.name, d.cpu)).collect()
}

#[test]
fn parses_name_and_cpu_per_line() {
    let out = "web\t0.52%\ndb \t 12.00% \r\n\nnotab line\n\t3%\ncache\t1.0%\textra";
    assert_eq!(
        cells(out),
        vec![
            ("web".to_string(), "0.52%".to_string()),
            ("db".to_string(), "12.00%".to_string()),
            ("cache".to_string(), "1.0%\textra".to_string()),
        ]
    );
}

#[test]
fn empty_output_has_no_rows() {
    assert!(cells("").is_empty());
    assert!(cells("\n\n").is_empty());
}

#[test]
fn failed_run_has_no_rows() {
    assert!(docker_services(false, b"web\t1%\n").is_empty());
}

#[test]
fn output_bytes_are_read_lossily() {
    let rows = docker_services(true, b"w\xffb\t2%\n");
    assert_eq!(rows.len(), 1);
    assert_eq!(rows[0].name, "w\u{fffd}b");
    assert_eq!(rows[0].cpu, "2%");
}
