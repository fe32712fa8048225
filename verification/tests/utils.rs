//! Stripping terminators.

use trunkls::texter::utils::trim_eol_from_end;

#[test]
fn non_last_row_trimming() {
    for normalized in [
        "Hello, World",
        "Hello, World\r",
        "Hello, World\r\n",
        "Hello, World\n",
    ]
    .into_iter()
    .map(trim_eol_from_end)
    {
        assert_eq!("Hello, World", normalized);
    }
}
