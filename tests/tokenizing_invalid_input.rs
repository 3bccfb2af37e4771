use idml::tokenize;

#[test]
fn tokenizing_invalid_input__0001() {
  // Empty input is invalid.
  let input = "";
  assert_eq!("empty input", tokenize(input).unwrap_err().to_string());
}

#[test]
fn tokenizing_invalid_input__0002() {
  // No node name, only delimiter present.
  let input = ".";
  assert_eq!("unexpected end of input", tokenize(input).unwrap_err().to_string());
}

#[test]
fn tokenizing_invalid_input__0007() {
  // Node name is not followed by a whitespace, newline or both.
  let input = ".A";
  assert_eq!("unexpected end of input", tokenize(input).unwrap_err().to_string());
}

#[test]
fn tokenizing_invalid_input__0008() {
  // Node name is not followed by a whitespace and newline.
  let input = ".A ";
  assert_eq!("unexpected end of input", tokenize(input).unwrap_err().to_string());
}

#[test]
fn tokenizing_invalid_input__0009() {
  // Root node name must be at the very beginning of the line, without any indentation.
  let input = " .A\n";
  assert_eq!("unexpected character: ' ' 0x20 at row 1 and column 1", tokenize(input).unwrap_err().to_string());
}

#[test]
fn tokenizing_invalid_input__0014() {
  // Spaces after the last newline character.
  let input = r#".MODEL
    .NAMESPACE https://decision-toolkit.org/2_0001/
  "#;
  assert_eq!("unexpected end of input", tokenize(input).unwrap_err().to_string());
}
