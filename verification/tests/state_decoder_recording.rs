use silverscript_lang::ast::{ArrayDim, FunctionAst, StructFieldSpec, TypeBase, TypeRef};
use silverscript_lang::state_decoder_recording::{
    StagedValidationArgCapture, StateDecoderRecorder, ValidationBuiltinKind, ValidationObservedField,
};

fn function(name: &str) -> FunctionAst {
    FunctionAst { name: name.to_string(), params: Vec::new(), return_types: Vec::new(), body: Vec::new(), entrypoint: true }
}

fn layout() -> Vec<StructFieldSpec> {
    vec![
        StructFieldSpec { name: "count".to_string(), type_ref: TypeRef { base: TypeBase::Int, array_dims: Vec::new() } },
        StructFieldSpec { name: "data".to_string(), type_ref: TypeRef { base: TypeBase::Byte, array_dims: vec![ArrayDim::Fixed(4)] } },
    ]
}

#[test]
fn recorded_reads_move_by_the_entrypoint_start_and_share_layouts() {
    let mut recorder = StateDecoderRecorder::new();
    recorder.begin_entrypoint(&function("first"));
    recorder.set_entrypoint_start("first", 100);
    recorder.record_validation_call(
        ValidationBuiltinKind::ValidateOutputState,
        vec![
            StagedValidationArgCapture::top_of_stack(3, ValidationObservedField::OutputIndex),
            StagedValidationArgCapture::encoded_state(5, &layout()),
        ],
    );
    recorder.finish_entrypoint(0);
    recorder.begin_entrypoint(&function("second"));
    recorder.record_validation_call(
        ValidationBuiltinKind::ReadInputState,
        vec![StagedValidationArgCapture::encoded_state(7, &layout())],
    );
    let info = recorder.into_info();

    assert_eq!(info.state_layouts.len(), 1);
    assert_eq!(info.state_layouts[0].fields[1].name, "data");
    assert_eq!(info.state_layouts[0].fields[1].type_text, "byte[4]");
    assert_eq!(info.validation_calls.len(), 2);
    assert_eq!(info.validation_calls[0].builtin_kind, ValidationBuiltinKind::ValidateOutputState);
    assert_eq!(info.validation_calls[0].captures[0].bytecode_offset, 103);
    assert_eq!(info.validation_calls[0].captures[0].state_layout_id, None);
    assert_eq!(info.validation_calls[0].captures[1].bytecode_offset, 105);
    assert_eq!(info.validation_calls[0].captures[1].state_layout_id, Some(0));
    assert_eq!(info.validation_calls[1].captures[0].bytecode_offset, 7);
    assert_eq!(info.validation_calls[1].captures[0].state_layout_id, Some(0));
    assert_eq!(info.validation_calls[1].captures[0].field, ValidationObservedField::EncodedState);
}

#[test]
fn calls_recorded_before_any_entrypoint_are_dropped() {
    let mut recorder = StateDecoderRecorder::new();
    recorder.record_validation_call(ValidationBuiltinKind::ReadInputState, Vec::new());
    recorder.set_entrypoint_start("missing", 9);
    let info = recorder.into_info();
    assert!(info.validation_calls.is_empty());
    assert!(info.state_layouts.is_empty());
}
