use hosts_core::{get_groups, update_text_by_list, GroupDTO, Item};

fn item(ip: &str, aliases: &[&str], enabled: bool, comment: Option<&str>) -> Item {
    Item {
        ip: ip.to_string(),
        aliases: aliases.iter().map(|a| a.to_string()).collect(),
        enabled,
        comment: comment.map(|c| c.to_string()),
    }
}

fn groups(text: &str) -> Vec<GroupDTO> {
    get_groups(text.to_string())
}

fn entries(gs: &[GroupDTO]) -> Vec<Item> {
    gs.iter().flat_map(|g| g.list.clone()).collect()
}

#[test]
fn work_group_scenario() {
    let gs = groups("# --- Group: Work ---\n10.0.0.1 work.local\n# 10.0.0.2 disabled.local\n");
    assert_eq!(gs.len(), 1);
    assert_eq!(gs[0].name, "Work");
    assert_eq!(
        gs[0].list,
        vec![
            item("10.0.0.1", &["work.local"], true, None),
            item("10.0.0.2", &["disabled.local"], false, None),
        ]
    );
}

#[test]
fn lines_before_first_header_form_default_group() {
    let text = "127.0.0.1 localhost\n\n# --- Group: A ---\n1.2.3.4 a.test b.test # note here \n";
    let gs = groups(text);
    assert_eq!(gs.len(), 2);
    assert_eq!(gs[0].name, "default");
    assert_eq!(gs[0].text, "127.0.0.1 localhost\n\n");
    assert_eq!(gs[0].list, vec![item("127.0.0.1", &["localhost"], true, None)]);
    assert_eq!(gs[1].name, "A");
    assert_eq!(gs[1].text, "# --- Group: A ---\n1.2.3.4 a.test b.test # note here \n");
    assert_eq!(gs[1].list, vec![item("1.2.3.4", &["a.test", "b.test"], true, Some("note here"))]);
}

#[test]
fn group_texts_concatenate_to_input() {
    let text = "# top\n# --- Group: X ---\n\n# --- Group: X ---\n::1 six\nlast";
    let gs = groups(text);
    assert_eq!(gs.len(), 3);
    assert_eq!(gs[1].name, "X");
    assert_eq!(gs[2].name, "X");
    let joined: String = gs.iter().map(|g| g.text.clone()).collect();
    assert_eq!(joined, text);
}

#[test]
fn empty_text_has_no_groups() {
    assert!(groups("").is_empty());
}

#[test]
fn malformed_lines_stay_raw() {
    let gs = groups("999.1.1.1 bad.host\n10.0.0.1\n# just a comment\nnot-an-ip host\n");
    assert_eq!(gs.len(), 1);
    assert!(gs[0].list.is_empty());
    assert_eq!(gs[0].text, "999.1.1.1 bad.host\n10.0.0.1\n# just a comment\nnot-an-ip host\n");
}

#[test]
fn header_only_group_is_kept() {
    let gs = groups("# --- Group: Empty ---\n");
    assert_eq!(gs.len(), 1);
    assert_eq!(gs[0].name, "Empty");
    assert!(gs[0].list.is_empty());
}

#[test]
fn render_exact_lines() {
    let list = vec![
        item("10.0.0.1", &["a", "b"], true, None),
        item("10.0.0.2", &["c"], false, Some("off")),
    ];
    let out = update_text_by_list(list, "10.0.0.1 a\n".to_string());
    assert_eq!(out, "10.0.0.1 a b\n# 10.0.0.2 c # off\n");
}

#[test]
fn render_keeps_crlf() {
    let list = vec![item("::1", &["x"], true, None)];
    let out = update_text_by_list(list, "# hosts\r\n".to_string());
    assert_eq!(out, "::1 x\r\n");
}

#[test]
fn render_empty_list() {
    assert_eq!(update_text_by_list(vec![], "1.1.1.1 a\n".to_string()), "");
}

#[test]
fn toggling_adds_and_removes_marker() {
    let on = item("10.0.0.1", &["work.local"], true, Some("c"));
    let mut off = on.clone();
    off.enabled = false;
    let a = update_text_by_list(vec![on], String::new());
    let b = update_text_by_list(vec![off], String::new());
    assert_eq!(a, "10.0.0.1 work.local # c\n");
    assert_eq!(b, format!("# {}", a));
}

#[test]
fn parse_render_round_trip() {
    let text = "# --- Group: G ---\n  10.0.0.1\twork.local  other  #  hi there \n#10.0.0.2 d.local\n# plain\n";
    let gs = groups(text);
    for g in &gs {
        let out = update_text_by_list(g.list.clone(), g.text.clone());
        assert_eq!(entries(&groups(&out)), g.list);
    }
    assert_eq!(
        gs[0].list,
        vec![
            item("10.0.0.1", &["work.local", "other"], true, Some("hi there")),
            item("10.0.0.2", &["d.local"], false, None),
        ]
    );
}

#[test]
fn render_is_idempotent() {
    let text = "127.0.0.1 localhost\r\n# --- Group: W ---\r\n# 10.0.0.2 x y # z\r\n";
    let once = update_text_by_list(entries(&groups(text)), text.to_string());
    let twice = update_text_by_list(entries(&groups(&once)), once.clone());
    assert_eq!(once, "127.0.0.1 localhost\r\n# 10.0.0.2 x y # z\r\n");
    assert_eq!(twice, once);
}

#[test]
fn comment_line_break_keeps_one_line() {
    let list = vec![item("1.1.1.1", &["a.local"], true, Some("x\n2.2.2.2 b.local"))];
    let out = update_text_by_list(list, String::new());
    assert_eq!(out, "1.1.1.1 a.local # x\n");
    let back = entries(&groups(&out));
    assert_eq!(back, vec![item("1.1.1.1", &["a.local"], true, Some("x"))]);
}

#[test]
fn comment_of_only_a_newline() {
    let list = vec![item("1.1.1.1", &["a.local"], false, Some("\n"))];
    let out = update_text_by_list(list, String::new());
    assert_eq!(out, "# 1.1.1.1 a.local # \n");
    assert_eq!(out.matches('\n').count(), 1);
}

#[test]
fn field_with_line_break_gives_empty_line() {
    let list = vec![
        item("1.1.1.1\n2.2.2.2", &["a"], true, None),
        item("3.3.3.3", &["b\nc"], true, None),
        item("4.4.4.4", &["d"], true, None),
    ];
    let out = update_text_by_list(list, "x\r\n".to_string());
    assert_eq!(out, "\r\n\r\n4.4.4.4 d\r\n");
}

#[test]
fn work_group_list_renders_two_lines() {
    let list = vec![
        item("10.0.0.1", &["work.local"], true, None),
        item("10.0.0.2", &["disabled.local"], false, None),
    ];
    let text = "# --- Group: Work ---\n10.0.0.1 work.local\n# 10.0.0.2 disabled.local\n";
    let out = update_text_by_list(list.clone(), text.to_string());
    assert_eq!(out, "10.0.0.1 work.local\n# 10.0.0.2 disabled.local\n");
    assert_eq!(entries(&groups(&out)), list);
}

#[test]
fn group_render_is_idempotent() {
    let text = "# --- Group: A ---\r\n1.1.1.1 a # c\r\n\r\n# 2.2.2.2 b\r\n";
    for g in groups(text) {
        let once = update_text_by_list(g.list.clone(), g.text.clone());
        let twice = update_text_by_list(entries(&groups(&once)), once.clone());
        assert_eq!(twice, once);
    }
}
