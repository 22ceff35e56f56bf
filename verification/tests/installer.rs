use dominant_colors::installer::{
    append_to_file, configure_ssh, debian_arch, install_caddy, install_cpolar, install_docker, install_flclash,
    install_rust, install_samba, install_version_managers, setup_app_directory, setup_letsencrypt,
    setup_su_password, Step,
};
use dominant_colors::installer::{plan_next, plan_start, PlanStep};

fn run_text(step: &Step) -> &str {
    match step {
        Step::Run(c) => c.as_str(),
        _ => panic!("expected a command, got {:?}", step),
    }
}

#[test]
fn debian_arch_maps_known_machines() {
    assert_eq!(debian_arch("x86_64"), "amd64");
    assert_eq!(debian_arch("aarch64"), "arm64");
    assert_eq!(debian_arch("armv7l"), "armhf");
}

#[test]
fn debian_arch_keeps_unknown_machines() {
    assert_eq!(debian_arch("riscv64"), "riscv64");
    assert_eq!(debian_arch(""), "");
}

#[test]
fn append_to_user_file_appends_directly() {
    match append_to_file("/home/me/.bashrc", "it's\n") {
        Step::AppendFile(p, c) => {
            assert_eq!(p, "/home/me/.bashrc");
            assert_eq!(c, "it's\n");
        }
        other => panic!("unexpected step {:?}", other),
    }
}

#[test]
fn append_to_privileged_file_goes_through_sudo_tee() {
    let s = append_to_file("/etc/ssh/sshd_config", "a'b");
    assert_eq!(run_text(&s), "echo 'a'\"'\"'b' | sudo tee -a /etc/ssh/sshd_config");
    let s = append_to_file("/usr/x", "y");
    assert_eq!(run_text(&s), "echo 'y' | sudo tee -a /usr/x");
    let s = append_to_file("/root/.bashrc", "");
    assert_eq!(run_text(&s), "echo '' | sudo tee -a /root/.bashrc");
}

#[test]
fn append_prefix_must_match_whole_directory() {
    assert!(matches!(append_to_file("/etcetera", "x"), Step::AppendFile(_, _)));
    assert!(matches!(append_to_file("/usr", "x"), Step::AppendFile(_, _)));
}

#[test]
fn su_password_command() {
    let steps = setup_su_password("s3cret");
    assert_eq!(steps.len(), 1);
    assert_eq!(run_text(&steps[0]), "echo 'root:s3cret' | sudo chpasswd");
}

#[test]
fn rust_plan_writes_cargo_config_under_home() {
    let steps = install_rust("/home/u");
    assert_eq!(steps.len(), 8);
    assert_eq!(run_text(&steps[0]), "sudo apt update");
    assert_eq!(run_text(&steps[1]), "sudo apt install -y curl build-essential");
    match &steps[5] {
        Step::CreateDirAll(p) => assert_eq!(p, "/home/u/.cargo"),
        other => panic!("unexpected step {:?}", other),
    }
    match &steps[6] {
        Step::WriteFile(p, c) => {
            assert_eq!(p, "/home/u/.cargo/config");
            assert!(c.starts_with("[source.crates-io]\nreplace-with = 'tuna'"));
        }
        other => panic!("unexpected step {:?}", other),
    }
    match &steps[7] {
        Step::AppendFile(p, c) => {
            assert_eq!(p, "/home/u/.bashrc");
            assert_eq!(c, "\n# Rust\nsource ~/.cargo/env\n");
        }
        other => panic!("unexpected step {:?}", other),
    }
}

#[test]
fn samba_plan_shares_home_directory() {
    let steps = install_samba("pw", "/home/u", "alice");
    assert_eq!(steps.len(), 7);
    match &steps[1] {
        Step::CreateDirAll(p) => assert_eq!(p, "/home/u/smb-share"),
        other => panic!("unexpected step {:?}", other),
    }
    assert_eq!(run_text(&steps[2]), "chmod 755 /home/u/smb-share");
    let conf = run_text(&steps[3]);
    assert!(conf.starts_with("echo '\n[alice-share]\n    path = /home/u/smb-share\n"));
    assert!(conf.contains("valid users = alice\n"));
    assert!(conf.ends_with("' | sudo tee -a /etc/samba/smb.conf"));
    assert_eq!(run_text(&steps[4]), "echo -e 'pw\\npw' | sudo smbpasswd -a alice");
    assert_eq!(run_text(&steps[6]), "sudo systemctl start smbd");
}

#[test]
fn docker_plan_logs_in_with_credentials() {
    let steps = install_docker("bob", "hunter2", "alice");
    assert_eq!(steps.len(), 13);
    assert_eq!(run_text(&steps[6]), "sudo usermod -aG docker alice");
    match &steps[8] {
        Step::WriteFile(p, c) => {
            assert_eq!(p, "/etc/docker/daemon.json");
            assert!(c.contains("\"registry-mirrors\""));
        }
        other => panic!("unexpected step {:?}", other),
    }
    assert_eq!(
        run_text(&steps[12]),
        "echo 'hunter2' | docker login -u bob --password-stdin docker.xuanyuan.dev"
    );
}

#[test]
fn caddy_plan_steps() {
    let steps = install_caddy();
    assert_eq!(steps.len(), 6);
    assert_eq!(run_text(&steps[4]), "sudo apt install -y caddy");
    assert_eq!(run_text(&steps[5]), "sudo systemctl enable caddy");
}

#[test]
fn cpolar_plan_registers_token() {
    let steps = install_cpolar("tok");
    assert_eq!(steps.len(), 4);
    assert_eq!(run_text(&steps[1]), "cpolar authtoken tok");
}

#[test]
fn letsencrypt_plan_installs_renewal_script() {
    let steps = setup_letsencrypt();
    assert_eq!(steps.len(), 4);
    match &steps[1] {
        Step::WriteFile(p, c) => {
            assert_eq!(p, "/usr/local/bin/cert-renewal.sh");
            assert_eq!(c, "#!/bin/bash\ncertbot renew --quiet\nsystemctl reload caddy\n");
        }
        other => panic!("unexpected step {:?}", other),
    }
}

#[test]
fn app_directory_plan_uses_home() {
    let steps = setup_app_directory("/home/u");
    assert_eq!(steps.len(), 4);
    match &steps[0] {
        Step::CreateDirAll(p) => assert_eq!(p, "/home/u/app"),
        other => panic!("unexpected step {:?}", other),
    }
    assert_eq!(run_text(&steps[1]), "sudo cp -r /home/u/app /usr/local/");
    match &steps[2] {
        Step::AppendFile(p, c) => {
            assert_eq!(p, "/home/u/.bashrc");
            assert!(c.starts_with("\n# App directories\n#!/bin/bash\n"));
            assert!(c.contains("add_to_path \"/home/u/app\"\n"));
        }
        other => panic!("unexpected step {:?}", other),
    }
    assert!(run_text(&steps[3]).ends_with("' | sudo tee -a /root/.bashrc"));
}

#[test]
fn version_managers_plan_uses_home() {
    let steps = install_version_managers("/home/u");
    assert_eq!(steps.len(), 7);
    assert!(run_text(&steps[1]).contains("export PYENV_ROOT=\"/home/u\"/.pyenv"));
    match &steps[2] {
        Step::AppendFile(p, c) => {
            assert_eq!(p, "/home/u/.bashrc");
            assert!(c.contains("export PYENV_ROOT=\"/home/u/.pyenv\"\n"));
        }
        other => panic!("unexpected step {:?}", other),
    }
    assert_eq!(run_text(&steps[5]), "source ~/.bashrc");
}

#[test]
fn ssh_plan_appends_to_sshd_config() {
    let steps = configure_ssh();
    assert_eq!(steps.len(), 3);
    let cmd = run_text(&steps[1]);
    assert!(cmd.starts_with("echo '\n# "));
    assert!(cmd.contains("PermitRootLogin yes\n"));
    assert!(cmd.ends_with("' | sudo tee -a /etc/ssh/sshd_config"));
}

#[test]
fn flclash_plan_with_subscription() {
    let steps = install_flclash("amd64", "https://sub");
    assert_eq!(steps.len(), 11);
    assert_eq!(
        run_text(&steps[0]),
        "wget -O /tmp/flclash.deb https://github.com/chen08209/FlClash/releases/download/v0.8.86/FlClash-0.8.86-linux-amd64.deb"
    );
    assert_eq!(run_text(&steps[7]), "/usr/local/bin/update-clash-config.sh 'https://sub'");
    assert_eq!(run_text(&steps[10]), "sudo systemctl start flclash");
}

#[test]
fn flclash_plan_without_subscription() {
    let steps = install_flclash("arm64", "");
    assert_eq!(steps.len(), 10);
    assert_eq!(run_text(&steps[7]), "sudo systemctl daemon-reload");
}

#[test]
fn plans_stop_at_the_first_failure() {
    assert_eq!(plan_start(0), PlanStep::Finished);
    assert_eq!(plan_start(3), PlanStep::Run(0));
    assert_eq!(plan_next(3, 0, true), PlanStep::Run(1));
    assert_eq!(plan_next(3, 1, false), PlanStep::Failed(1));
    assert_eq!(plan_next(3, 2, true), PlanStep::Finished);
}
