use pyspy::idle_list::{check_idle, load_idle_list};

#[test]
fn test_correct_insertion() {
    let lines = vec![
        String::from("func_a program_a X"),
        String::from("func_a program_b E"),
        String::from("func_b program_a C"),
        String::from("func_c program_b E"),
    ];
    let list = load_idle_list(&lines);

    // load success
    assert!(!list.entries.is_empty());

    let func_a_string = String::from("func_a");
    let func_b_string = String::from("func_b");
    let func_c_string = String::from("func_c");
    let func_d_string = String::from("func_d");
    let program_a_string = String::from("program_a");
    let program_a_contain = String::from("xxx_program_a_xxx");
    let program_a_ncontain = String::from("xxx_program_xxx_a");
    let program_b_string = String::from("program_b");
    let program_b_endwith = String::from("xxx_program_b");
    let program_b_nendwith = String::from("xxx_program_b?");

    // Check cases
    assert_eq!(check_idle(&list, &func_a_string, &program_a_string), true);
    assert_eq!(check_idle(&list, &func_a_string, &program_a_contain), false);
    assert_eq!(check_idle(&list, &func_a_string, &program_b_string), true);
    assert_eq!(check_idle(&list, &func_a_string, &program_b_endwith), true);
    assert_eq!(check_idle(&list, &func_a_string, &program_b_nendwith), false);
    assert_eq!(check_idle(&list, &func_b_string, &program_a_string), true);
    assert_eq!(check_idle(&list, &func_b_string, &program_a_contain), true);
    assert_eq!(check_idle(&list, &func_b_string, &program_a_ncontain), false);
    assert_eq!(check_idle(&list, &func_c_string, &program_b_string), true);
    assert_eq!(check_idle(&list, &func_c_string, &program_b_endwith), true);
    assert_eq!(check_idle(&list, &func_c_string, &program_b_nendwith), false);
    assert_eq!(check_idle(&list, &func_d_string, &program_a_string), false);
}

#[test]
fn test_malformed_lines_declare_nothing() {
    let lines = vec![
        String::from(""),
        String::from("too_few"),
        String::from("func_x program_x Q"),
        String::from("   "),
        String::from("func_y  program_y  X  extra ignored"),
    ];
    let list = load_idle_list(&lines);
    assert!(!check_idle(&list, &String::from("too_few"), &String::from("anything")));
    assert!(!check_idle(&list, &String::from("func_x"), &String::from("program_x")));
    assert!(check_idle(&list, &String::from("func_y"), &String::from("program_y")));
    assert!(!check_idle(&list, &String::from("func_y"), &String::from("program_z")));
}

#[test]
fn test_empty_rules() {
    let list = load_idle_list(&Vec::new());
    assert!(!check_idle(&list, &String::from("f"), &String::from("p")));
}
