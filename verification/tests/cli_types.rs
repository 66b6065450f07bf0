use steg::cli::{Cli, Commands};

#[test]
fn cli_holds_its_command() {
    let cli = Cli {
        command: Commands::ExtractFile { input: "in.png".to_string(), password: "pw".to_string(), output: None },
    };
    match cli.command {
        Commands::ExtractFile { output, .. } => assert!(output.is_none()),
        _ => unreachable!(),
    }
}
