use rolldb::doctor::{Args, Command};

#[test]
fn doctor_commands_are_distinct() {
    let a = Args { command: Command::RebuildLedger };
    let b = Args { command: Command::WalIntegrity };
    let c = Args { command: Command::TrimWal };
    assert_ne!(a.command, b.command);
    assert_ne!(b.command, c.command);
    assert_eq!(a, Args { command: Command::RebuildLedger });
}
