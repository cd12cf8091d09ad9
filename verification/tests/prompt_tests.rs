use promptfuzz::request::prompt::{combination_types, get_combination_definitions};
use promptfuzz::request::prompt::counter_from_json;
use promptfuzz::request::prompt::{combination_from_json, combination_to_json};
use promptfuzz::request::http::{ChatMessage, MessageContent};
use promptfuzz::request::prompt::{
    combination_to_str, get_prompt_counter_value, get_sys_gen_message, set_prompt_counter_value,
    update_prompt_counter, FuncGadget, Prompt, PromptCounter,
};

fn gadget(name: &str, sig: &str) -> &'static FuncGadget {
    Box::leak(Box::new(FuncGadget::new(name.to_string(), sig.to_string())))
}

#[test]
fn counter_read_after_write() {
    let mut c = PromptCounter::new();
    assert_eq!(get_prompt_counter_value(&c, "f"), None);
    set_prompt_counter_value(&mut c, "f".to_string(), 3);
    set_prompt_counter_value(&mut c, "g".to_string(), 1);
    assert_eq!(get_prompt_counter_value(&c, "f"), Some(3));
    set_prompt_counter_value(&mut c, "f".to_string(), 7);
    assert_eq!(get_prompt_counter_value(&c, "f"), Some(7));
    assert_eq!(get_prompt_counter_value(&c, "g"), Some(1));
    assert_eq!(c.to_entries().len(), 2);
}

#[test]
fn update_counts_each_occurrence() {
    let mut c = PromptCounter::new();
    let f = gadget("f", "int f(void)");
    let g = gadget("g", "void g(int)");
    update_prompt_counter(&mut c, &vec![f, g, f]);
    assert_eq!(get_prompt_counter_value(&c, "f"), Some(2));
    assert_eq!(get_prompt_counter_value(&c, "g"), Some(1));
    assert_eq!(get_prompt_counter_value(&c, "h"), None);
}

#[test]
fn prompt_from_combination() {
    let mut c = PromptCounter::new();
    let f = gadget("f", "int f(void)");
    let g = gadget("g", "void g(int)");
    let mut p = Prompt::from_combination(&mut c, vec![f, g]);
    assert_eq!(p.serialize(), "int f(void),\n    void g(int)");
    assert_eq!(p.get_combination().len(), 2);
    p.set_combination(&mut c, vec![g]);
    assert_eq!(get_prompt_counter_value(&c, "g"), Some(2));
    assert_eq!(p.serialize(), "void g(int)");
    p.get_combination_mut().push(f);
    assert_eq!(p.gadgets.len(), 2);
    assert_eq!(combination_to_str(&Vec::new()), "");
    let q = Prompt::new(vec![f]);
    assert_eq!(q.get_combination()[0].get_func_name(), "f");
}

#[test]
fn chat_messages_of_prompt() {
    let f = gadget("f", "int f(void)");
    let p = Prompt::new(vec![f]);
    let msgs = p.to_chatgpt_message("SYS", "Use {combinations} now");
    assert_eq!(msgs.len(), 2);
    match &msgs[0] {
        ChatMessage::System(MessageContent::Text(t)) => assert_eq!(t, "SYS"),
        _ => panic!("system message expected"),
    }
    match &msgs[1] {
        ChatMessage::User(MessageContent::Text(t)) => assert_eq!(t, "Use int f(void) now"),
        _ => panic!("user message expected"),
    }
}

#[test]
fn system_message_templates() {
    let r = get_sys_gen_message(
        "GEN",
        "Lib {project}: {headers} / {APIs} / {context}",
        "zlib",
        Some("A compression library. "),
        "zlib.h",
        "deflate",
        "ctx".to_string(),
    );
    assert_eq!(r, "GEN\n\nA compression library. Lib zlib: zlib.h / deflate / ctx");
    let r = get_sys_gen_message("G", "{project}{project}", "p", None, "", "", String::new());
    assert_eq!(r, "G\n\npp");
}

#[test]
fn counter_json_round_trip() {
    let mut c = PromptCounter::new();
    set_prompt_counter_value(&mut c, "f".to_string(), 3);
    set_prompt_counter_value(&mut c, "g".to_string(), 1);
    let text = c.to_json();
    let back = counter_from_json(&text).unwrap();
    assert_eq!(get_prompt_counter_value(&back, "f"), Some(3));
    assert_eq!(get_prompt_counter_value(&back, "g"), Some(1));
    let parsed = counter_from_json(r#"{"h": 4}"#).unwrap();
    assert_eq!(get_prompt_counter_value(&parsed, "h"), Some(4));
    assert!(counter_from_json("[1, 2]").is_none());
}

#[test]
fn combination_json_round_trip() {
    let f = gadget("f", "int f(void)");
    let g = gadget("g", "int g(int)");
    let all = vec![f, g];
    let text = combination_to_json(&[g, f]);
    assert_eq!(text, r#"["g","f"]"#);
    let back = combination_from_json(&all, &text).unwrap();
    assert_eq!(back.len(), 2);
    assert_eq!(back[0].name, "g");
    assert_eq!(back[1].name, "f");
    assert!(combination_from_json(&all, r#"["h"]"#).is_none());
    assert!(combination_from_json(&all, "not json").is_none());
}

#[test]
fn combination_types_once_each() {
    let func_types = vec![
        vec!["cJSON *".to_string(), "int".to_string(), "cJSON *".to_string()],
        vec!["const char *".to_string(), "cJSON *".to_string()],
    ];
    let force = vec!["cJSON_Hooks".to_string(), "int".to_string()];
    let types = combination_types(&func_types, &force);
    assert_eq!(types, vec!["cJSON *", "int", "const char *", "cJSON_Hooks"]);
    assert_eq!(combination_types(&vec![], &vec![]), Vec::<String>::new());
}

#[test]
fn combination_definitions_joined() {
    let defs = vec!["struct a {};".to_string(), "typedef int b;".to_string()];
    assert_eq!(get_combination_definitions(&defs), "struct a {};\n\ntypedef int b;");
    assert_eq!(get_combination_definitions(&vec![]), "");
}

#[test]
fn counter_json_is_sorted_by_name() {
    let mut c = PromptCounter::new();
    set_prompt_counter_value(&mut c, "g".to_string(), 1);
    set_prompt_counter_value(&mut c, "f".to_string(), 3);
    assert_eq!(c.to_json(), r#"{"f":3,"g":1}"#);
}
