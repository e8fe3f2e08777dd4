use rbackup::config::{config_text, parse_config};

fn owned(v: &[&str]) -> Vec<String> {
    v.iter().map(|s| s.to_string()).collect()
}

#[test]
fn reads_marked_destinations_and_sources() {
    let (d, s) = parse_config("> F:\\backup\n> G:\\b2\nC:\\Users\\ted\\Documents\n\n\\\\nas\\photos\n");
    assert_eq!(d, owned(&["F:\\backup", "G:\\b2"]));
    assert_eq!(s, owned(&["C:\\Users\\ted\\Documents", "\\\\nas\\photos"]));
}

#[test]
fn old_format_first_line_is_destination() {
    let (d, s) = parse_config("F:\\backup\r\nC:\\a\r\nC:\\b");
    assert_eq!(d, owned(&["F:\\backup"]));
    assert_eq!(s, owned(&["C:\\a", "C:\\b"]));
}

#[test]
fn empty_settings() {
    let (d, s) = parse_config("");
    assert!(d.is_empty() && s.is_empty());
    let (d, s) = parse_config("\n\n");
    assert!(d.is_empty() && s.is_empty());
}

#[test]
fn saved_text_reads_back() {
    let dests = owned(&["F:\\backup", "G:\\"]);
    let sources = owned(&["C:\\Users\\ted", "D:\\Photos"]);
    let text = config_text(&dests, &sources);
    assert_eq!(text, "> F:\\backup\n> G:\\\nC:\\Users\\ted\nD:\\Photos");
    assert_eq!(parse_config(&text), (dests, sources));
}

#[test]
fn only_sources_read_back_as_old_format() {
    // With no destination, the first source is taken for the destination.
    let text = config_text(&vec![], &owned(&["C:\\a", "C:\\b"]));
    assert_eq!(parse_config(&text), (owned(&["C:\\a"]), owned(&["C:\\b"])));
}
