use stori::startup::{listening_pid, port_conflict_detail, tasklist_filter, tasklist_image, words_of};

#[test]
fn finds_the_process_listening_on_the_port() {
    let netstat = "\r\nActive Connections\r\n\r\n  Proto  Local Address          Foreign Address        State           PID\r\n  TCP    0.0.0.0:18220          0.0.0.0:0              LISTENING       11\r\n  TCP    0.0.0.0:1822           0.0.0.0:0              listening       4242\r\n  TCP    0.0.0.0:1822           0.0.0.0:0              LISTENING       5\r\n";
    assert_eq!(listening_pid(Some(netstat.as_bytes().to_vec()), 1822).as_deref(), Some("4242"));
    assert_eq!(listening_pid(Some(netstat.as_bytes().to_vec()), 80), None);
    assert_eq!(listening_pid(Some(vec![0xff, 0xfe]), 1822), None);
    assert_eq!(listening_pid(None, 1822), None);
}

#[test]
fn reads_the_image_name_from_tasklist() {
    assert_eq!(tasklist_image(Some(b"\"calibre.exe\",\"4242\",\"Console\"\r\n".to_vec())).as_deref(), Some("calibre.exe"));
    assert_eq!(tasklist_image(Some(b"INFO: No tasks are running.".to_vec())), None);
    assert_eq!(tasklist_image(None), None);
    assert_eq!(tasklist_filter("4242"), "PID eq 4242");
}

#[test]
fn explains_port_conflicts() {
    assert_eq!(port_conflict_detail(1822, Some("4242"), Some("calibre.exe")), "Port 1822 is currently used by calibre.exe (PID 4242).");
    assert_eq!(port_conflict_detail(1822, Some("4242"), None), "Port 1822 is currently used by PID 4242.");
    assert_eq!(port_conflict_detail(1822, None, None), "Port 1822 is already in use by another application.");
}

#[test]
fn splits_words_like_split_whitespace() {
    let words: Vec<String> = words_of(&"  a bb\t c ".chars().collect::<Vec<_>>())
        .into_iter()
        .map(|w| w.into_iter().collect())
        .collect();
    assert_eq!(words, vec!["a".to_string(), "bb".to_string(), "c".to_string()]);
}

#[test]
fn tells_why_the_server_could_not_start() {
    let message = stori::startup::start_failure_message(1822, "Port 1822 is currently used by PID 7.", "address in use");
    assert_eq!(message, "sTori could not start its local server on port 1822.\n\nPort 1822 is currently used by PID 7.\n\nClose the conflicting application, then reopen sTori.\n\nTechnical detail: address in use");
}
