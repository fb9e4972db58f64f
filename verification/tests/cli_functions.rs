use gkr::cli_functions::{input_value_bytes, json_value_to_field_element, needs_compile, CLIFunctions};
use gkr::field::Fp;

const R: u64 = 18446744073709551557;

/// The decimal number `text` reduced modulo `R`, digit by digit.
fn decimal_mod_r(text: &str) -> u64 {
    let mut acc: u128 = 0;
    for c in text.chars() {
        acc = (acc * 10 + (c as u128 - '0' as u128)) % (R as u128);
    }
    acc as u64
}

#[test]
fn cli_functions_test_file_path_constructors() {
    let test_artifacts = "src/r1cs_gkr/adapters/circom/test_artifacts".to_string();
    let base_folder = test_artifacts.clone() + "/program_gkr";
    let source_path = test_artifacts + "/program.circom";

    let cli_functions = CLIFunctions::new(source_path);

    assert_eq!(cli_functions.file_name(), "program");
    assert_eq!(cli_functions.base_folder(), base_folder.clone());
    assert_eq!(cli_functions.r1cs_path(), base_folder.clone() + "/program.r1cs");
    assert_eq!(cli_functions.wasm_path(), base_folder.clone() + "/program_js/program.wasm");
    assert_eq!(cli_functions.input_path(), base_folder.clone() + "/input.json");
    assert_eq!(cli_functions.witness_path(), base_folder.clone() + "/witness.json");
    assert_eq!(cli_functions.proof_path(), base_folder.clone() + "/proof.bin");
}

#[test]
fn artifact_paths_collects_the_layout() {
    let cli_functions = CLIFunctions::new("dir/circuit.circom".to_string());
    let paths = cli_functions.artifact_paths().unwrap();
    assert_eq!(paths.base_folder, "dir/circuit_gkr");
    assert_eq!(paths.r1cs, "dir/circuit_gkr/circuit.r1cs");
    assert_eq!(paths.wasm, "dir/circuit_gkr/circuit_js/circuit.wasm");
    assert_eq!(paths.input, "dir/circuit_gkr/input.json");
    assert_eq!(paths.witness, "dir/circuit_gkr/witness.json");
    assert_eq!(paths.proof, "dir/circuit_gkr/proof.bin");
    assert_eq!(paths.proof_json, "dir/circuit_gkr/proof.json");
    // a bare file name lives in the current folder
    let local = CLIFunctions::new("circuit.circom".to_string());
    assert_eq!(local.artifact_paths().unwrap().base_folder, "circuit_gkr");
    // the root has no file name
    assert!(CLIFunctions::new("/".to_string()).artifact_paths().is_none());
}

#[test]
fn source_checks() {
    let circom = CLIFunctions::new("dir/circuit.circom".to_string());
    assert!(circom.check_source(true).is_ok());
    assert_eq!(circom.check_source(false), Err("source file not found"));
    let other = CLIFunctions::new("dir/circuit.txt".to_string());
    assert_eq!(other.check_source(true), Err("source file must be a circom file"));
    assert!(!CLIFunctions::new("x.c".to_string()).is_circom_file());
}

#[test]
fn compile_is_needed_unless_all_outputs_exist() {
    assert!(!needs_compile(true, true, true));
    assert!(needs_compile(false, true, true));
    assert!(needs_compile(true, false, true));
    assert!(needs_compile(true, true, false));
}

#[test]
fn cli_functions_test_json_value_to_field_element() {
    let text = "9824591917714408054315164033316029513904852844852789288956910420447629608399";
    let field_element = json_value_to_field_element::<R>(Some(text.to_string())).unwrap();
    assert_eq!(field_element, Fp::<R>::from_u64(decimal_mod_r(text)));

    assert_eq!(Fp::<R>::from_u64(0), json_value_to_field_element::<R>(Some("".to_string())).unwrap());
}

#[test]
fn json_values_must_be_number_strings() {
    assert!(json_value_to_field_element::<R>(None).is_err());
    assert_eq!(json_value_to_field_element::<R>(Some("abc".to_string())), Err("invalid input.json value: expected number"));
    assert_eq!(json_value_to_field_element::<R>(Some("-7".to_string())).unwrap(), Fp::<R>::from_u64(7));
    assert_eq!(json_value_to_field_element::<R>(Some("1_000".to_string())).unwrap(), Fp::<R>::from_u64(1000));
    assert!(json_value_to_field_element::<R>(Some("_1".to_string())).is_err());
    assert!(json_value_to_field_element::<R>(Some("-+1".to_string())).is_err());
    assert_eq!(input_value_bytes(Some("258".to_string())).unwrap(), vec![1, 2]);
    assert_eq!(input_value_bytes(Some("".to_string())).unwrap(), Vec::<u8>::new());
}
