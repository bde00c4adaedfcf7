use mo_fmt::grammar::{head_symbol_ids, HEAD_RULES};

fn parser_c(heads: &[(String, u16)]) -> String {
    let mut s = String::from("#include \"tree_sitter/parser.h\"\n\nenum ts_symbol_identifiers {\n");
    s.push_str("  sym_identifier = 1,\n  anon_sym_LBRACE = 2,\n");
    for (name, id) in heads {
        s.push_str(&format!("  sym_{name} = {id},\n"));
    }
    s.push_str("  sym_exp_head_not = 999,\n};\n\nstatic const char * const ts_symbol_names[] = {};\n");
    s
}

#[test]
fn head_rules_are_read_from_the_symbol_enum_and_sorted() {
    let mut heads: Vec<(String, u16)> = (0..26).map(|i| (format!("r{i}_head"), 500 - i as u16)).collect();
    heads.push(("_par_exp_tight".to_string(), 7));
    let ids = head_symbol_ids(&parser_c(&heads)).unwrap();
    assert_eq!(ids.len(), HEAD_RULES);
    assert_eq!(ids[0], 7);
    assert_eq!(ids[1], 475);
    assert!(ids.windows(2).all(|w| w[0] <= w[1]));
}

#[test]
fn a_changed_number_of_head_rules_is_an_error() {
    let heads: Vec<(String, u16)> = (0..3).map(|i| (format!("r{i}_head"), i as u16)).collect();
    assert!(head_symbol_ids(&parser_c(&heads)).is_err());
    assert!(head_symbol_ids("int main() {}").is_err());
}
