use dosdis::dis::dis_func;
use dosdis::ai::comments::parse_response;
use dosdis::ai::annotate_function::{merge, Annotation, MergeError, Response};
use dosdis::ai::label_memory::{
    agent_step, function_list, functions_using, AgentStep, Finish, GetFunctionParams, ToolError, Usage,
};
use dosdis::ai::{next_queued, Task};
use dosdis::db::{EXE, MemoryLocation, DB};
use dosdis::eval::eval_all;
use dosdis::function::{Function, Var};
use dosdis::segofs::SegOfs;

fn db_with_code() -> DB {
    let mut mem = vec![0u8; 0x200];
    // mov ax,1234h ; mov ds,ax ; mov al,[0010h] ; ret
    mem[0x100..0x109].copy_from_slice(&[0xb8, 0x34, 0x12, 0x8e, 0xd8, 0xa0, 0x10, 0x00, 0xc3]);
    let mut db = DB::new(mem, EXE { filename: "a.exe".into(), entry_point: SegOfs::new(0, 0x100) });
    dis_func(&mut db, SegOfs::new(0, 0x100)).unwrap();
    eval_all(&mut db);
    db
}

fn var(name: &str) -> Var {
    Var { name: name.into(), value: "ax".into(), typ: "u16".into(), desc: "d".into() }
}

fn ann(addr: &str, text: &str) -> Annotation {
    Annotation { addr: addr.into(), text: text.into() }
}

fn response(labels: Vec<Annotation>, comments: Vec<Annotation>) -> Response {
    Response {
        name: "init".into(),
        desc: "sets up".into(),
        details: "more".into(),
        parameters: vec![],
        ret: Some(var("r")),
        labels,
        inline_comments: comments,
    }
}

#[test]
fn task_descriptions() {
    assert_eq!(Task::AnnotateFunction(SegOfs::new(0x823, 0xcec)).desc(), "annotate function 0823:0cec");
    assert_eq!(Task::LabelMemory(SegOfs::new(0x1234, 0x10)).desc(), "label memory 1234:0010");
}

#[test]
fn queue_annotates_then_labels() {
    let mut db = db_with_code();
    assert_eq!(next_queued(&db), Some(Task::AnnotateFunction(SegOfs::new(0, 0x100))));
    db.functions[0].desc = Some("x".into());
    assert_eq!(next_queued(&db), Some(Task::LabelMemory(SegOfs::new(0x1234, 0x10))));
    db.insert_memory(
        SegOfs::new(0x1234, 0x10),
        MemoryLocation { name: "flag".into(), desc: "a flag".into(), typ: "u8".into() },
    );
    assert_eq!(next_queued(&db), None);
}

#[test]
fn merge_takes_the_answer_in() {
    let mut db = db_with_code();
    let f = &mut db.functions[0];
    f.blocks[0].instrs[0].comment = Some("old".into());
    let r = response(
        vec![ann("0000:0105", "load")],
        vec![ann("0000:0100", "first"), ann("0:100", "second")],
    );
    merge(f, r).unwrap();
    assert_eq!(f.name.as_deref(), Some("init"));
    assert_eq!(f.desc.as_deref(), Some("sets up"));
    assert_eq!(f.details.as_deref(), Some("more"));
    assert!(f.params.is_none());
    assert_eq!(f.ret.as_ref().unwrap().name, "r");
    assert_eq!(f.blocks[0].instrs[0].comment.as_deref(), Some("second"));
    assert_eq!(f.blocks[0].instrs[2].label.as_deref(), Some("load"));
    assert!(f.blocks[0].instrs[1].comment.is_none());
}

#[test]
fn merge_keeps_parameters() {
    let mut db = db_with_code();
    let f = &mut db.functions[0];
    let mut r = response(vec![], vec![]);
    r.parameters = vec![var("a"), var("b")];
    merge(f, r).unwrap();
    let ps = f.params.as_ref().unwrap();
    assert_eq!(ps.len(), 2);
    assert_eq!(ps[1].name, "b");
}

#[test]
fn merge_refuses_bad_annotations_keeping_what_came_before() {
    let mut db = db_with_code();
    let f = &mut db.functions[0];
    f.blocks[0].instrs[1].comment = Some("old".into());
    let r = response(vec![ann("0000:0100", "top"), ann("0000:0101", "mid")], vec![ann("0000:0105", "c")]);
    assert!(matches!(merge(f, r), Err(MergeError::LabelOnNonexistent(a)) if a == SegOfs::new(0, 0x101)));
    // name and descriptions are in, labels and comments cleared, the label before the bad one applied
    assert_eq!(f.name.as_deref(), Some("init"));
    assert_eq!(f.blocks[0].instrs[0].label.as_deref(), Some("top"));
    assert!(f.blocks[0].instrs[1].comment.is_none());
    assert!(f.blocks[0].instrs[2].comment.is_none());

    let r = response(vec![ann("0000:0100", "top")], vec![ann("0000:0105", "c"), ann("zz", "c")]);
    assert!(matches!(merge(f, r), Err(MergeError::BadAddr(s, _)) if s == "zz"));
    assert_eq!(f.blocks[0].instrs[2].comment.as_deref(), Some("c"));
    let r = response(vec![], vec![ann("0001:0100", "c")]);
    assert!(matches!(merge(f, r), Err(MergeError::CommentOnNonexistent(a)) if a == SegOfs::new(1, 0x100)));
    assert!(f.blocks[0].instrs[0].label.is_none());
}

#[test]
fn annotation_parse() {
    let (a, t) = ann("0823:0cec", "hi").parse().unwrap();
    assert_eq!(a, SegOfs::new(0x823, 0xcec));
    assert_eq!(t, "hi");
    assert!(matches!(ann("x", "hi").parse(), Err(MergeError::BadAddr(s, _)) if s == "x"));
}

#[test]
fn functions_using_memory() {
    let db = db_with_code();
    assert_eq!(functions_using(&db, SegOfs::new(0x1234, 0x10)), vec![SegOfs::new(0, 0x100)]);
    assert!(functions_using(&db, SegOfs::new(0x1234, 0x11)).is_empty());
}

#[test]
fn function_list_text() {
    assert_eq!(function_list(&vec![]), "");
    assert_eq!(function_list(&vec![SegOfs::new(1, 2)]), "0001:0002");
    assert_eq!(function_list(&vec![SegOfs::new(1, 2), SegOfs::new(3, 4)]), "0001:0002, 0003:0004");
}

#[test]
fn get_function_tool() {
    let db = db_with_code();
    let ok = GetFunctionParams { addr: "0000:0100".into() };
    assert_eq!(GetFunctionParams::call(&db, &ok).unwrap(), 0);
    let bad = GetFunctionParams { addr: "main".into() };
    assert!(matches!(GetFunctionParams::call(&db, &bad), Err(ToolError::BadAddress(s)) if s == "main"));
    let none = GetFunctionParams { addr: "0000:0200".into() };
    assert!(matches!(GetFunctionParams::call(&db, &none), Err(ToolError::UnknownFunction(a)) if a == SegOfs::new(0, 0x200)));
}

#[test]
fn usage_adds_prompt_tokens() {
    let mut u = Usage::default();
    u.add(10, 5, 15);
    u.add(20, 7, 27);
    assert_eq!((u.prompt, u.completion, u.total), (30, 7, 27));
}

#[test]
fn agent_steps() {
    assert_eq!(agent_step(0, Some(Finish::Stop), true), AgentStep::Done);
    assert_eq!(agent_step(0, Some(Finish::Stop), false), AgentStep::Continue);
    assert_eq!(agent_step(0, Some(Finish::ToolCalls), false), AgentStep::Continue);
    assert_eq!(agent_step(19, None, false), AgentStep::GiveUp);
    assert_eq!(agent_step(19, Some(Finish::Stop), true), AgentStep::Done);
}

#[test]
fn reply_comments_are_parsed_line_by_line() {
    let r = parse_response("0823:0cec set DS\n\nbad line\nzz:1 no\nnospace\n0823:0cf5 zero regs\n");
    assert_eq!(r.len(), 2);
    assert_eq!(r[0], (SegOfs::new(0x823, 0xcec), "set DS".to_string()));
    assert_eq!(r[1], (SegOfs::new(0x823, 0xcf5), "zero regs".to_string()));
    // a carriage return stays with the comment
    assert_eq!(parse_response("0:1 x\r\n")[0].1, "x\r");
}

#[test]
fn reply_comments_are_added_to_instructions() {
    let mut db = db_with_code();
    let f = &mut db.functions[0];
    f.blocks[0].instrs[1].comment = Some("was".into());
    let n = dosdis::ai::comments::merge(f, "0000:0100 a\n0000:0103 b\n0000:0103 c\n0001:0100 other seg\n0000:0101 none\n");
    assert_eq!(n, 3);
    assert_eq!(f.blocks[0].instrs[0].comment.as_deref(), Some("a"));
    assert_eq!(f.blocks[0].instrs[1].comment.as_deref(), Some("was; b; c"));
    assert!(f.blocks[0].instrs[2].comment.is_none());
}
