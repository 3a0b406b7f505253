use mlua::{Function, Lua, Table, Value};

use privatium_core::lua::lsp::compile;
use privatium_core::text::html_escape_into;

/// The text a tag emits for a value: nothing for `nil`, the string, the number.
fn text_of(lua: &Lua, value: &Value) -> mlua::Result<String> {
    match value {
        Value::Nil => Ok(String::new()),
        Value::String(s) => Ok(s.to_str()?.to_string()),
        Value::Integer(i) => Ok(i.to_string()),
        Value::Boolean(b) => Ok(b.to_string()),
        other => {
            let tostring: Function = lua.globals().get("tostring")?;
            tostring.call::<String>(other.clone())
        }
    }
}

/// Run a compiled template in a bare state with `ctx` as its environment.
fn run(source: &str, ctx: &[(&str, &str)]) -> Result<String, String> {
    let lua = Lua::new();
    let compiled = compile(source).map_err(|e| format!("views/t.lsp:{}: {}", e.line, e.message))?;
    let factory = lua
        .load(compiled.lua.as_str())
        .set_name("@views/t.lsp")
        .into_function()
        .map_err(|e| compiled.map.rewrite(&e.to_string(), "views/t.lsp"))?;
    let concat: Function = lua.globals().get::<Table>("table").unwrap().get("concat").unwrap();
    let esc = lua
        .create_function(|lua, v: Value| {
            let text = text_of(lua, &v)?;
            let mut out = Vec::new();
            for c in text.chars() {
                html_escape_into(&mut out, c);
            }
            Ok(out.into_iter().collect::<String>())
        })
        .unwrap();
    let raw = lua.create_function(|lua, v: Value| text_of(lua, &v)).unwrap();
    let function: Function = factory.call((concat, esc, raw)).unwrap();
    let env = lua.create_table().unwrap();
    for (k, v) in ctx {
        env.set(*k, *v).unwrap();
    }
    env.set("tostring", lua.globals().get::<Function>("tostring").unwrap()).unwrap();
    env.set("ipairs", lua.globals().get::<Function>("ipairs").unwrap()).unwrap();
    env.set("error", lua.globals().get::<Function>("error").unwrap()).unwrap();
    function
        .call::<String>(env)
        .map_err(|e| compiled.map.rewrite(&e.to_string(), "views/t.lsp"))
}

#[test]
fn the_four_tags() {
    let out = run(
        "<h1><?= title ?></h1>\n<? if x then ?>yes<? end ?>\n<?raw markup ?>\n<?-- gone <?= not this ?> --?>done",
        &[("title", "<b>&</b>"), ("x", "1"), ("markup", "<i>")],
    )
    .unwrap();
    assert_eq!(out, "<h1>&lt;b&gt;&amp;&lt;/b&gt;</h1>\nyes\n<i>\ndone");
}

#[test]
fn nil_emits_nothing_and_quotes_survive() {
    let out = run("a\"b\\c\t<?= missing ?>'d'", &[]).unwrap();
    assert_eq!(out, "a\"b\\c\t'd'");
}

#[test]
fn raw_needs_whitespace_and_code_may_end_in_a_comment() {
    assert!(run("<?rawr ?>", &[]).is_err());
    let out = run("<? local n = 1 -- note ?>[<?= n -- also ?>]", &[]).unwrap();
    assert_eq!(out, "[1]");
}

#[test]
fn errors_name_the_lsp_line() {
    let error = run("line one\n<? error('boom') ?>\n", &[]).unwrap_err();
    assert!(error.contains("views/t.lsp:2:"), "{error}");
    let error = run("a\nb\n<?= 1 +\n nope() ?>", &[]).unwrap_err();
    assert!(error.contains("views/t.lsp:4:"), "{error}");
    let error = run("x\n\n<? if y ?>", &[]).unwrap_err();
    assert!(error.contains("views/t.lsp:3:"), "{error}");
    let error = compile("ok\n<?= open").unwrap_err();
    assert_eq!(error.line, 2);
    assert!(error.message.contains("unclosed <?= ?>"), "{error:?}");
    let error = compile("\n\n<?-- never closed ?>").unwrap_err();
    assert_eq!(error.line, 3);
}
