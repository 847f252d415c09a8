use uuid_remap::content::FileContentSwapResult;
use uuid_remap::world::{rename_before, task_step, FileProcessError, RenameLedger, TaskAction, TaskEvent, TaskResult};

#[test]
fn task_tries_mca_then_nbt_then_text() {
    let mut errors = Vec::new();
    assert!(matches!(task_step(&mut errors, TaskEvent::Start), TaskAction::TryMca));
    assert!(matches!(task_step(&mut errors, TaskEvent::McaDone(Err("no region".to_string()))), TaskAction::TryNbt));
    assert!(matches!(
        task_step(&mut errors, TaskEvent::NbtDone(Err("no nbt".to_string()))),
        TaskAction::TrySwapContent
    ));
    match task_step(&mut errors, TaskEvent::ContentDone(Ok(FileContentSwapResult::IsBinary))) {
        TaskAction::Finish(TaskResult::Unsupported(v)) => assert_eq!(
            v,
            vec![
                FileProcessError::McaError("no region".to_string()),
                FileProcessError::NbtError("no nbt".to_string())
            ]
        ),
        other => panic!("unexpected {:?}", other),
    }
    assert!(errors.is_empty());
}

#[test]
fn task_success_and_errors() {
    let mut errors = Vec::new();
    assert!(matches!(task_step(&mut errors, TaskEvent::McaDone(Ok(()))), TaskAction::Finish(TaskResult::Success)));
    task_step(&mut errors, TaskEvent::McaDone(Err("a".to_string())));
    task_step(&mut errors, TaskEvent::NbtDone(Err("b".to_string())));
    match task_step(&mut errors, TaskEvent::ContentDone(Err("c".to_string()))) {
        TaskAction::Finish(TaskResult::Error(v)) => assert_eq!(v.len(), 3),
        other => panic!("unexpected {:?}", other),
    }
    let mut errors = vec![FileProcessError::McaError("a".to_string())];
    assert!(matches!(
        task_step(&mut errors, TaskEvent::ContentDone(Ok(FileContentSwapResult::NoChange))),
        TaskAction::Finish(TaskResult::NoChange)
    ));
}

#[test]
fn rename_order_deepest_files_first() {
    assert!(rename_before(3, false, 2, true));
    assert!(rename_before(2, true, 2, false));
    assert!(!rename_before(2, false, 2, true));
    assert!(!rename_before(2, true, 2, true));
    assert!(!rename_before(1, true, 2, false));
}

#[test]
fn renamed_paths_are_not_renamed_again() {
    let mut ledger = RenameLedger::new();
    let a = "world/playerdata/a.dat".to_string();
    let b = "world/playerdata/b.dat".to_string();
    assert!(ledger.takes(&a, true));
    assert!(!ledger.takes(&a, false));
    assert_eq!(ledger.finish(Ok((Some(a.clone()), Some(b.clone())))), TaskResult::Success);
    assert!(!ledger.takes(&a, true));
    assert!(!ledger.takes(&b, true));
    let failed = ledger.finish(Err("denied".to_string()));
    assert_eq!(failed, TaskResult::Error(vec![FileProcessError::RenameError("denied".to_string())]));
    assert!(ledger.takes(&"world/level.dat".to_string(), true));
}
