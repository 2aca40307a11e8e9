use word_chains::code_lines::{count_code_in_lines, count_valid_code_lines, ReadState};

const EXAMPLE_1: &str = "// This file contains 3 lines of code
public interface Dave {
    /**
     * count the number of lines in a file
     */
    int countLines(File inFile); // not the real signature!
}
";
const EXAMPLE_1_OUT: u32 = 3;

const EXAMPLE_2: &str = "/*****
* This is a test program with 5 lines of code
*  \\/* no nesting allowed!
//*****//***/// Slightly pathological comment ending...

public class Hello {
    public static final void main(String [] args) { // gotta love Java
        // Say hello
      System./*wait*/out./*for*/println/*it*/(\"Hello/*\");
    }

}
";
const EXAMPLE_2_OUT: u32 = 5;

#[test]
fn example_1() {
    assert_eq!(count_valid_code_lines(EXAMPLE_1), EXAMPLE_1_OUT);
}

#[test]
fn example_2() {
    assert_eq!(count_valid_code_lines(EXAMPLE_2), EXAMPLE_2_OUT);
}

#[test]
fn comments_and_literals_across_lines() {
    assert_eq!(count_valid_code_lines("a\n\n/* x\n y */ b\n// c\n'q\nq'"), 4);
    assert_eq!(count_valid_code_lines("\"abc\n\ndef\""), 2);
    assert_eq!(count_valid_code_lines("  \t\n"), 0);
    assert_eq!(count_valid_code_lines(""), 0);
    assert_eq!(count_valid_code_lines("/"), 1);
    assert_eq!(count_valid_code_lines("\tx = 1;\r\n\t// done\r\n"), 1);
}

#[test]
fn lines_are_counted_as_given() {
    let lines: Vec<Vec<char>> = vec![" x".chars().collect(), "/*".chars().collect(), "*/".chars().collect()];
    assert_eq!(count_code_in_lines(&lines), 1);
}

#[test]
fn read_state_steps() {
    let s = ReadState::OnWhiteSpace;
    assert_eq!(s.after_next_char_in_line('/'), ReadState::OnSlash);
    assert_eq!(ReadState::OnSlash.after_next_char_in_line('/'), ReadState::InEndOfLineComment);
    assert_eq!(
        ReadState::OnSlash.after_next_char_in_line('*'),
        ReadState::InMultilineComment { ending_comment: false }
    );
    assert_eq!(
        ReadState::InMultilineComment { ending_comment: false }.after_next_char_in_line('*'),
        ReadState::InMultilineComment { ending_comment: true }
    );
    assert_eq!(
        ReadState::InMultilineComment { ending_comment: true }.after_next_char_in_line('/'),
        ReadState::OnWhiteSpace
    );
    assert_eq!(ReadState::OnIdentifiedSymbol.after_next_char_in_line('\''), ReadState::InQuotation('\''));
    assert_eq!(ReadState::InQuotation('"').after_next_char_in_line('\''), ReadState::InQuotation('"'));
    assert_eq!(ReadState::InQuotation('"').after_next_char_in_line('"'), ReadState::OnIdentifiedSymbol);
    assert!(ReadState::InQuotation('"').is_multi_line());
    assert!(ReadState::InMultilineComment { ending_comment: true }.is_multi_line());
    assert!(!ReadState::OnSlash.is_multi_line());
}
