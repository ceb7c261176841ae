use hypr_kblayoutd::ipc::switch_layout_command;

#[test]
fn switch_layout_command_uses_raw_ipc_format_without_separator() {
    assert_eq!(
        switch_layout_command("keychron-keychron-k2", 1),
        "switchxkblayout keychron-keychron-k2 1"
    );
}
