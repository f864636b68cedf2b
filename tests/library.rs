use many_exec::engine::{CallContext, RequestMessage, WasmEngine};
use many_exec::error::ErrorKind;
use many_exec::library::{endpoints_of, Export, ModuleLibrary};

fn exports(names: &[&str]) -> Vec<Export> {
    names.iter().map(|n| Export { name: n.as_bytes().to_vec(), is_function: true }).collect()
}

#[test]
fn endpoints_are_function_exports_with_the_prefix() {
    let mut ex = exports(&["endpoint ping", "init", "endpoint"]);
    ex.push(Export { name: b"endpoint mem".to_vec(), is_function: false });
    assert_eq!(endpoints_of(&ex), vec![b"ping".to_vec()]);
}

#[test]
fn duplicate_endpoint_leaves_library_unchanged() {
    let mut lib: ModuleLibrary<u32> = ModuleLibrary::new();
    assert!(lib.add(1, b"first".to_vec(), &exports(&["endpoint ping"])).is_ok());
    let e = lib.add(2, b"second".to_vec(), &exports(&["endpoint pong", "endpoint ping"])).unwrap_err();
    assert_eq!(e.kind, ErrorKind::DuplicateEndpoint);
    assert_eq!(lib.iter(), &[1]);
    assert_eq!(lib.by_endpoint(b"ping"), Some(&1));
    assert_eq!(lib.by_endpoint(b"pong"), None);
    assert_eq!(lib.by_name(b"second"), None);
    assert_eq!(lib.by_name(b"first"), Some(&1));
}

#[test]
fn install_and_call_copies_request() {
    let mut engine: WasmEngine<&str> = WasmEngine::new();
    engine.add_module("echo", b"echo".to_vec(), &exports(&["endpoint ping"])).unwrap();
    let (index, export) = engine
        .begin_call(RequestMessage { method: b"ping".to_vec(), data: vec![0x01, 0x02] })
        .unwrap();
    assert_eq!(engine.modules.iter()[index], "echo");
    assert_eq!(export, b"endpoint ping".to_vec());
    // The guest copies its input into its response.
    let input = engine.context.input().unwrap().clone();
    assert!(engine.context.set_response(Ok(input)));
    assert_eq!(engine.finish_call(None), Ok(vec![0x01, 0x02]));
    assert!(matches!(engine.context.call, CallContext::Idle));
}

#[test]
fn unknown_endpoint_is_not_found() {
    let mut engine: WasmEngine<&str> = WasmEngine::new();
    let e = engine.begin_call(RequestMessage { method: b"ping".to_vec(), data: vec![] }).unwrap_err();
    assert_eq!(e.kind, ErrorKind::EndpointNotFound);
}

#[test]
fn trap_is_reported_and_context_reset() {
    let mut engine: WasmEngine<&str> = WasmEngine::new();
    engine.add_module("m", b"m".to_vec(), &exports(&["endpoint ping"])).unwrap();
    engine.begin_call(RequestMessage { method: b"ping".to_vec(), data: vec![] }).unwrap();
    let e = engine.finish_call(Some("unreachable".to_string())).unwrap_err();
    assert_eq!(e.kind, ErrorKind::GuestTrap);
    assert_eq!(e.message, "trapped: unreachable");
    assert!(matches!(engine.context.call, CallContext::Idle));
}

#[test]
fn missing_response_is_an_error() {
    let mut engine: WasmEngine<&str> = WasmEngine::new();
    engine.add_module("m", b"m".to_vec(), &exports(&["endpoint ping"])).unwrap();
    engine.begin_call(RequestMessage { method: b"ping".to_vec(), data: vec![] }).unwrap();
    assert!(engine.finish_call(None).is_err());
}

#[test]
fn initialization_context_carries_argument() {
    let mut engine: WasmEngine<&str> = WasmEngine::new();
    engine.begin_init(b"{}".to_vec());
    assert_eq!(engine.context.input(), Some(&b"{}".to_vec()));
    assert!(!engine.context.set_response(Ok(vec![])));
}
