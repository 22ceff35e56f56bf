//! The plan of the server set-up program: for every installation step, the
//! commands to run and the files to write, as data.  The program runs the
//! plan; building it is pure, and deciding after each step whether to go on
//! is a function of the step's outcome.

use vstd::prelude::*;

verus! {

/// What a step does.
#[derive(Debug, Clone, Copy, PartialEq, Eq, Structural)]
pub enum StepKind {
    /// Runs a command with `bash -c`.
    Run,
    /// Creates a directory and its missing parents.
    CreateDirAll,
    /// Writes a file, replacing what it held.
    WriteFile,
    /// Appends to a file that the user may write.
    AppendFile,
}

/// One action of an installation.
#[derive(Debug)]
pub enum Step {
    /// Runs the command with `bash -c`.
    Run(String),
    /// Creates the directory and its missing parents.
    CreateDirAll(String),
    /// Writes the content (second) to the file (first).
    WriteFile(String, String),
    /// Appends the content (second) to the file (first).
    AppendFile(String, String),
}

impl View for Step {
    type V = (StepKind, Seq<char>, Seq<char>);

    open spec fn view(&self) -> (StepKind, Seq<char>, Seq<char>) {
        match self {
            Step::Run(c) => (StepKind::Run, c@, Seq::empty()),
            Step::CreateDirAll(p) => (StepKind::CreateDirAll, p@, Seq::empty()),
            Step::WriteFile(p, c) => (StepKind::WriteFile, p@, c@),
            Step::AppendFile(p, c) => (StepKind::AppendFile, p@, c@),
        }
    }
}

/// The steps of a plan, as views.
pub open spec fn plan_view(steps: Seq<Step>) -> Seq<(StepKind, Seq<char>, Seq<char>)> {
    steps.map_values(|s: Step| s@)
}

/// Running `cmd`.
pub open spec fn run_v(cmd: Seq<char>) -> (StepKind, Seq<char>, Seq<char>) {
    (StepKind::Run, cmd, Seq::empty())
}

/// Creating the directory `path`.
pub open spec fn dir_v(path: Seq<char>) -> (StepKind, Seq<char>, Seq<char>) {
    (StepKind::CreateDirAll, path, Seq::empty())
}

/// Writing `content` to `path`.
pub open spec fn write_v(path: Seq<char>, content: Seq<char>) -> (StepKind, Seq<char>, Seq<char>) {
    (StepKind::WriteFile, path, content)
}

/// `s` begins with `prefix`.
pub open spec fn has_prefix(s: Seq<char>, prefix: Seq<char>) -> bool {
    prefix.len() <= s.len() && s.subrange(0, prefix.len() as int) == prefix
}

/// Files under `/etc/`, `/usr/` and `/root/` need root to be written.
pub open spec fn privileged_path(path: Seq<char>) -> bool {
    has_prefix(path, "/etc/"@) || has_prefix(path, "/usr/"@) || has_prefix(path, "/root/"@)
}

/// `s` with every `from` replaced by `to`.
pub open spec fn replaced_char(s: Seq<char>, from: char, to: Seq<char>) -> Seq<char>
    decreases s.len(),
{
    if s.len() == 0 {
        s
    } else if s.last() == from {
        replaced_char(s.drop_last(), from, to) + to
    } else {
        replaced_char(s.drop_last(), from, to).push(s.last())
    }
}

/// How a single quote is written inside single quotes in a shell command:
/// close the quotes, a quote in double quotes, open them again.
pub const QUOTE_ESCAPE: &'static str = "'\"'\"'";

/// `s` with every `'` written as `'"'"'`, so that it can stand between
/// single quotes in a shell command.
pub open spec fn escape_quotes(s: Seq<char>) -> Seq<char> {
    replaced_char(s, '\'', QUOTE_ESCAPE@)
}

/// Appending `content` to `path`: through `sudo tee -a` for a file that
/// needs root, directly otherwise.
pub open spec fn append_v(path: Seq<char>, content: Seq<char>) -> (StepKind, Seq<char>, Seq<char>) {
    if privileged_path(path) {
        run_v(TEE_HEAD@ + escape_quotes(content) + TEE_MIDDLE@ + path)
    } else {
        (StepKind::AppendFile, path, content)
    }
}

/// Whether `s` begins with `prefix`.
///
/// Trusted: calls `str::starts_with`, which the standard library documents
/// as true exactly when the pattern matches a prefix of the string.
#[verifier::external_body]
fn starts_with(s: &str, prefix: &str) -> (r: bool)
    ensures
        r == has_prefix(s@, prefix@),
{
    s.starts_with(prefix)
}

/// `s` with every `from` replaced by `to`.
///
/// Trusted: calls `str::replace` with a character pattern, which the standard
/// library documents as replacing every match of the pattern with `to`.
#[verifier::external_body]
fn replace_char(s: &str, from: char, to: &str) -> (r: String)
    ensures
        r@ == replaced_char(s@, from, to@),
{
    s.replace(from, to)
}

fn run(cmd: &str) -> (s: Step)
    ensures
        s@ == run_v(cmd@),
{
    Step::Run(String::from_str(cmd))
}

fn run_owned(cmd: String) -> (s: Step)
    ensures
        s@ == run_v(cmd@),
{
    Step::Run(cmd)
}

fn create_dir(path: String) -> (s: Step)
    ensures
        s@ == dir_v(path@),
{
    Step::CreateDirAll(path)
}

fn write_file(path: String, content: &str) -> (s: Step)
    ensures
        s@ == write_v(path@, content@),
{
    Step::WriteFile(path, String::from_str(content))
}

/// `a` followed by `b`.
fn cat(a: &str, b: &str) -> (s: String)
    ensures
        s@ == a@ + b@,
{
    let mut s = String::from_str(a);
    s.append(b);
    s
}

/// `a`, `b` and `c` one after another.
fn cat3(a: &str, b: &str, c: &str) -> (s: String)
    ensures
        s@ == a@ + b@ + c@,
{
    let mut s = String::from_str(a);
    s.append(b);
    s.append(c);
    s
}

/// Appends `content` to `file_path`; a file under `/etc/`, `/usr/` or
/// `/root/` is appended to through `sudo tee -a`, with the content quoted.
pub fn append_to_file(file_path: &str, content: &str) -> (s: Step)
    ensures
        s@ == append_v(file_path@, content@),
{
    if starts_with(file_path, "/etc/") || starts_with(file_path, "/usr/") || starts_with(file_path, "/root/") {
        let escaped = replace_char(content, '\'', QUOTE_ESCAPE);
        let mut cmd = String::from_str(TEE_HEAD);
        cmd.append(escaped.as_str());
        cmd.append(TEE_MIDDLE);
        cmd.append(file_path);
        Step::Run(cmd)
    } else {
        Step::AppendFile(String::from_str(file_path), String::from_str(content))
    }
}

/// What running a plan does next.
#[derive(Debug, Clone, Copy, PartialEq, Eq, Structural)]
pub enum PlanStep {
    /// Run the step at this position.
    Run(usize),
    /// Every step succeeded: the installation succeeded.
    Finished,
    /// The step at this position failed: stop, the installation failed.
    Failed(usize),
}

/// Where running a plan of `len` steps begins: its first step, or the end
/// when there is none.
pub fn plan_start(len: usize) -> (s: PlanStep)
    ensures
        s == (if len == 0 { PlanStep::Finished } else { PlanStep::Run(0) }),
{
    if len == 0 {
        PlanStep::Finished
    } else {
        PlanStep::Run(0)
    }
}

/// What follows once step `index` of a plan of `len` steps has run:
/// the first failure stops the plan; otherwise the next step runs, and the
/// plan is finished after its last step.
pub fn plan_next(len: usize, index: usize, succeeded: bool) -> (s: PlanStep)
    requires
        index < len,
    ensures
        !succeeded ==> s == PlanStep::Failed(index),
        succeeded && index + 1 < len ==> s == PlanStep::Run((index + 1) as usize),
        succeeded && index + 1 == len ==> s == PlanStep::Finished,
{
    if !succeeded {
        PlanStep::Failed(index)
    } else if index + 1 < len {
        PlanStep::Run(index + 1)
    } else {
        PlanStep::Finished
    }
}

/// How a plan ends when its steps come back with `outcomes`, one per step,
/// from step `i` on: at the first failure, or finished when none failed.
pub open spec fn plan_end(outcomes: Seq<bool>, i: int) -> PlanStep
    decreases outcomes.len() - i,
{
    if i >= outcomes.len() {
        PlanStep::Finished
    } else if !outcomes[i] {
        PlanStep::Failed(i as usize)
    } else {
        plan_end(outcomes, i + 1)
    }
}

/// A plan run with `plan_start` and `plan_next` ends as `plan_end` says: it
/// finishes exactly when every step from `i` on succeeded, and otherwise fails
/// at the first step that failed.
pub proof fn lemma_plan_run(outcomes: Seq<bool>, i: int)
    requires
        0 <= i <= outcomes.len() <= usize::MAX,
    ensures
        plan_end(outcomes, i) == PlanStep::Finished <==> forall|j: int| i <= j < outcomes.len() ==> #[trigger] outcomes[j],
        plan_end(outcomes, i) matches PlanStep::Failed(f) ==> i <= f < outcomes.len() && !outcomes[f as int]
            && forall|j: int| i <= j < f ==> #[trigger] outcomes[j],
    decreases outcomes.len() - i,
{
    if i < outcomes.len() && outcomes[i] {
        lemma_plan_run(outcomes, i + 1);
    }
}

/// The Debian architecture name for what `uname -m` reports.
pub open spec fn debian_arch_of(machine: Seq<char>) -> Seq<char> {
    if machine == "x86_64"@ {
        "amd64"@
    } else if machine == "aarch64"@ {
        "arm64"@
    } else if machine == "armv7l"@ {
        "armhf"@
    } else {
        machine
    }
}

/// Maps what `uname -m` reports to the Debian architecture name; unknown
/// names are kept.
pub fn debian_arch(machine: &str) -> (arch: String)
    ensures
        arch@ == debian_arch_of(machine@),
{
    let m = String::from_str(machine);
    if m == String::from_str("x86_64") {
        String::from_str("amd64")
    } else if m == String::from_str("aarch64") {
        String::from_str("arm64")
    } else if m == String::from_str("armv7l") {
        String::from_str("armhf")
    } else {
        m
    }
}


// ── Texts ────────────────────────────────────────────────────────────────────

/// Start of the command that sets the root password.
pub const SU_PASSWORD_HEAD: &'static str = "echo 'root:";

/// End of the command that sets the root password.
pub const SU_PASSWORD_TAIL: &'static str = "' | sudo chpasswd";

/// Refreshes the package index.
pub const APT_UPDATE: &'static str = "sudo apt update";

/// Installs what building Rust needs.
pub const RUST_DEPS: &'static str = "sudo apt install -y curl build-essential";

/// Points rustup at the Tsinghua mirror.
pub const RUSTUP_DIST_EXPORT: &'static str = "export RUSTUP_DIST_SERVER=https://mirrors.tuna.tsinghua.edu.cn/rustup";

/// Points rustup updates at the Tsinghua mirror.
pub const RUSTUP_ROOT_EXPORT: &'static str = "export RUSTUP_UPDATE_ROOT=https://mirrors.tuna.tsinghua.edu.cn/rustup/rustup";

/// Installs Rust through rustup from the mirror.
pub const RUST_INSTALL_SCRIPT: &'static str = "\n        export RUSTUP_DIST_SERVER=https://mirrors.tuna.tsinghua.edu.cn/rustup\n        export RUSTUP_UPDATE_ROOT=https://mirrors.tuna.tsinghua.edu.cn/rustup/rustup\n        curl --proto '=https' --tlsv1.2 -sSf https://sh.rustup.rs | sh -s -- -y\n    ";

/// Cargo configuration that uses the Tsinghua crates.io mirror.
pub const CARGO_CONFIG: &'static str = "[source.crates-io]\nreplace-with = 'tuna'\n\n[source.tuna]\nregistry = \"https://mirrors.tuna.tsinghua.edu.cn/git/crates.io-index.git\"\n";

/// Loads the Cargo environment in `.bashrc`.
pub const CARGO_ENV: &'static str = "\n# Rust\nsource ~/.cargo/env\n";

/// Installs Samba.
pub const SAMBA_INSTALL: &'static str = "sudo apt install -y samba";

/// Makes a directory world-readable.
pub const CHMOD_755: &'static str = "chmod 755 ";

/// Start of the Samba share section.
pub const SAMBA_SHARE_HEAD: &'static str = "\n[";

/// Before the shared path.
pub const SAMBA_SHARE_PATH: &'static str = "-share]\n    path = ";

/// Before the user allowed on the share.
pub const SAMBA_SHARE_USERS: &'static str = "\n    browseable = yes\n    read only = no\n    guest ok = no\n    valid users = ";

/// End of the Samba share section.
pub const SAMBA_SHARE_TAIL: &'static str = "\n    create mask = 0755\n    directory mask = 0755\n";

/// The Samba configuration file.
pub const SAMBA_CONF: &'static str = "/etc/samba/smb.conf";

/// Start of the command that sets the Samba password.
pub const SMBPASSWD_HEAD: &'static str = "echo -e '";

/// Between the password and its repetition.
pub const SMBPASSWD_REPEAT: &'static str = "\\n";

/// Before the Samba user.
pub const SMBPASSWD_USER: &'static str = "' | sudo smbpasswd -a ";

/// Enables the Samba service.
pub const SMBD_ENABLE: &'static str = "sudo systemctl enable smbd";

/// Starts the Samba service.
pub const SMBD_START: &'static str = "sudo systemctl start smbd";

/// Installs what adding the Docker repository needs.
pub const DOCKER_DEPS: &'static str = "sudo apt install -y apt-transport-https ca-certificates curl gnupg lsb-release";

/// Adds Docker's signing key from the Aliyun mirror.
pub const DOCKER_GPG: &'static str = "curl -fsSL https://mirrors.aliyun.com/docker-ce/linux/ubuntu/gpg | sudo gpg --dearmor -o /usr/share/keyrings/docker-archive-keyring.gpg";

/// Adds the Docker repository from the Aliyun mirror.
pub const DOCKER_REPO: &'static str = "echo \"deb [arch=$(dpkg --print-architecture) signed-by=/usr/share/keyrings/docker-archive-keyring.gpg] https://mirrors.aliyun.com/docker-ce/linux/ubuntu $(lsb_release -cs) stable\" | sudo tee /etc/apt/sources.list.d/docker.list > /dev/null";

/// Installs Docker.
pub const DOCKER_INSTALL: &'static str = "sudo apt install -y docker-ce docker-ce-cli containerd.io";

/// Installs docker-compose.
pub const DOCKER_COMPOSE_INSTALL: &'static str = "sudo apt install -y docker-compose";

/// Adds a user to the docker group.
pub const DOCKER_GROUP_ADD: &'static str = "sudo usermod -aG docker ";

/// Docker daemon configuration with registry mirrors.
pub const DOCKER_DAEMON_JSON: &'static str = "{\n    \"registry-mirrors\": [\n        \"https://docker.xuanyuan.dev\",\n        \"https://dockerhub.azk8s.cn\",\n        \"https://mirror.ccs.tencentyun.com\"\n    ],\n    \"insecure-registries\": [\"docker.xuanyuan.dev\"]\n}";

/// Docker's configuration directory.
pub const DOCKER_ETC: &'static str = "/etc/docker";

/// Docker's daemon configuration file.
pub const DOCKER_DAEMON_FILE: &'static str = "/etc/docker/daemon.json";

/// Reloads systemd units.
pub const DAEMON_RELOAD: &'static str = "sudo systemctl daemon-reload";

/// Restarts Docker.
pub const DOCKER_RESTART: &'static str = "sudo systemctl restart docker";

/// Enables Docker.
pub const DOCKER_ENABLE: &'static str = "sudo systemctl enable docker";

/// Start of the registry login command.
pub const DOCKER_LOGIN_HEAD: &'static str = "echo '";

/// Between the password and the user name.
pub const DOCKER_LOGIN_USER: &'static str = "' | docker login -u ";

/// End of the registry login command.
pub const DOCKER_LOGIN_TAIL: &'static str = " --password-stdin docker.xuanyuan.dev";

/// Installs what adding the Caddy repository needs.
pub const CADDY_DEPS: &'static str = "sudo apt install -y debian-keyring debian-archive-keyring apt-transport-https";

/// Adds Caddy's signing key.
pub const CADDY_GPG: &'static str = "curl -1sLf 'https://dl.cloudsmith.io/public/caddy/stable/gpg.key' | sudo gpg --dearmor -o /usr/share/keyrings/caddy-stable-archive-keyring.gpg";

/// Adds the Caddy repository.
pub const CADDY_REPO: &'static str = "curl -1sLf 'https://dl.cloudsmith.io/public/caddy/stable/debian.deb.txt' | sudo tee /etc/apt/sources.list.d/caddy-stable.list";

/// Installs Caddy.
pub const CADDY_INSTALL: &'static str = "sudo apt install -y caddy";

/// Enables Caddy.
pub const CADDY_ENABLE: &'static str = "sudo systemctl enable caddy";

/// Installs cpolar.
pub const CPOLAR_INSTALL: &'static str = "curl -L https://www.cpolar.com/static/downloads/install-release-cpolar.sh | sudo bash";

/// Registers the cpolar token.
pub const CPOLAR_AUTH: &'static str = "cpolar authtoken ";

/// Enables cpolar.
pub const CPOLAR_ENABLE: &'static str = "sudo systemctl enable cpolar";

/// Starts cpolar.
pub const CPOLAR_START: &'static str = "sudo systemctl start cpolar";

/// Installs certbot.
pub const CERTBOT_INSTALL: &'static str = "sudo apt install -y certbot";

/// Renews the certificates and reloads Caddy.
pub const CERT_RENEWAL_SCRIPT: &'static str = "#!/bin/bash\ncertbot renew --quiet\nsystemctl reload caddy\n";

/// Where the renewal script goes.
pub const CERT_RENEWAL_FILE: &'static str = "/usr/local/bin/cert-renewal.sh";

/// Makes the renewal script executable.
pub const CERT_RENEWAL_CHMOD: &'static str = "sudo chmod +x /usr/local/bin/cert-renewal.sh";

/// Runs the renewal script monthly.
pub const CERT_RENEWAL_CRON: &'static str = "(crontab -l 2>/dev/null; echo '0 2 1 * * /usr/local/bin/cert-renewal.sh') | crontab -";

/// Start of the command that copies the app directory.
pub const APP_COPY_HEAD: &'static str = "sudo cp -r ";

/// End of the command that copies the app directory.
pub const APP_COPY_TAIL: &'static str = " /usr/local/";

/// Start of the script that adds app directories to PATH.
pub const PATH_SCRIPT_HEAD: &'static str = "#!/bin/bash\n# 递归添加app目录下的所有二进制文件到PATH\nadd_to_path() {\n    local dir=\"$1\"\n    if [ -d \"$dir\" ]; then\n        # 添加当前目录到PATH（如果包含可执行文件）\n        if find \"$dir\" -maxdepth 1 -type f -executable | grep -q .; then\n            export PATH=\"$dir:$PATH\"\n        fi\n        \n        # 递归处理子目录\n        for subdir in \"$dir\"/*; do\n            if [ -d \"$subdir\" ]; then\n                add_to_path \"$subdir\"\n            fi\n        done\n    fi\n}\n\n# 添加用户app目录\nadd_to_path \"";

/// End of the script that adds app directories to PATH.
pub const PATH_SCRIPT_TAIL: &'static str = "/app\"\n# 添加系统app目录\nadd_to_path \"/usr/local/app\"\n";

/// Before the PATH script in `.bashrc`.
pub const APP_BASHRC_HEAD: &'static str = "\n# App directories\n";

/// After the PATH script in `.bashrc`.
pub const APP_BASHRC_TAIL: &'static str = "\n";

/// What root's `.bashrc` gets to add app directories to PATH.
pub const ROOT_BASHRC: &'static str = "\n# App directories\nadd_to_path() {\n    local dir=\"$1\"\n    if [ -d \"$dir\" ]; then\n        if find \"$dir\" -maxdepth 1 -type f -executable | grep -q .; then\n            export PATH=\"$dir:$PATH\"\n        fi\n        for subdir in \"$dir\"/*; do\n            if [ -d \"$subdir\" ]; then\n                add_to_path \"$subdir\"\n            fi\n        done\n    fi\n}\nadd_to_path \"/usr/local/app\"\n";

/// Start of the command that appends to root's `.bashrc`.
pub const ROOT_TEE_HEAD: &'static str = "echo '";

/// End of the command that appends to root's `.bashrc`.
pub const ROOT_TEE_TAIL: &'static str = "' | sudo tee -a /root/.bashrc";

/// Installs what building Python needs.
pub const PYENV_DEPS: &'static str = "sudo apt install -y make build-essential libssl-dev zlib1g-dev libbz2-dev libreadline-dev libsqlite3-dev wget curl llvm libncursesw5-dev xz-utils tk-dev libxml2-dev libxmlsec1-dev libffi-dev liblzma-dev";

/// Start of the command that clones pyenv.
pub const PYENV_CLONE_HEAD: &'static str = "\n        export PYENV_ROOT=\"";

/// End of the command that clones pyenv.
pub const PYENV_CLONE_TAIL: &'static str = "\"/.pyenv\n        git clone https://mirrors.tuna.tsinghua.edu.cn/git/pyenv.git $PYENV_ROOT\n    ";

/// Start of the pyenv setup in `.bashrc`.
pub const PYENV_CONFIG_HEAD: &'static str = "\n# pyenv\nexport PYENV_ROOT=\"";

/// End of the pyenv setup in `.bashrc`.
pub const PYENV_CONFIG_TAIL: &'static str = "/.pyenv\"\nexport PATH=\"$PYENV_ROOT/bin:$PATH\"\neval \"$(pyenv init -)\"\n";

/// Installs nvm from the Tsinghua mirror.
pub const NVM_INSTALL: &'static str = "curl -o- https://mirrors.tuna.tsinghua.edu.cn/git/nvm.git/plain/install.sh | bash";

/// The nvm setup in `.bashrc`.
pub const NPM_CONFIG: &'static str = "\n# nvm and npm\nexport NVM_DIR=\"$HOME/.nvm\"\n[ -s \"$NVM_DIR/nvm.sh\" ] && \\. \"$NVM_DIR/nvm.sh\"\n[ -s \"$NVM_DIR/bash_completion\" ] && \\. \"$NVM_DIR/bash_completion\"\nexport NVM_NODEJS_ORG_MIRROR=https://mirrors.tuna.tsinghua.edu.cn/nodejs-release/\n";

/// Reloads `.bashrc`.
pub const SOURCE_BASHRC: &'static str = "source ~/.bashrc";

/// Start of the script that installs Python and Node.js.
pub const VERSIONS_HEAD: &'static str = "\n        export PYENV_ROOT=\"";

/// End of the script that installs Python and Node.js.
pub const VERSIONS_TAIL: &'static str = "/.pyenv\"\n        export PATH=\"$PYENV_ROOT/bin:$PATH\"\n        eval \"$(pyenv init -)\"\n        \n        # 安装最新Python\n        pyenv install 3.11.0\n        pyenv global 3.11.0\n        \n        # 安装最新Node.js\n        export NVM_DIR=\"$HOME/.nvm\"\n        [ -s \"$NVM_DIR/nvm.sh\" ] && \\. \"$NVM_DIR/nvm.sh\"\n        nvm install node\n        nvm use node\n        nvm alias default node\n        \n        # 配置npm使用淘宝源\n        npm config set registry https://registry.npmmirror.com\n        \n        # 安装全局工具\n        npm install -g bun yarn pm2\n    ";

/// SSH settings that allow password and key logins.
pub const SSH_CONFIG: &'static str = "\n# 允许密码认证和密钥认证\nPasswordAuthentication yes\nPubkeyAuthentication yes\nAuthorizedKeysFile .ssh/authorized_keys\nPermitRootLogin yes\n";

/// Backs up the SSH daemon configuration.
pub const SSHD_BACKUP: &'static str = "sudo cp /etc/ssh/sshd_config /etc/ssh/sshd_config.backup";

/// The SSH daemon configuration file.
pub const SSHD_CONFIG: &'static str = "/etc/ssh/sshd_config";

/// Restarts SSH.
pub const SSH_RESTART: &'static str = "sudo systemctl restart ssh";

/// Start of the FlClash package address.
pub const FLCLASH_URL_HEAD: &'static str = "https://github.com/chen08209/FlClash/releases/download/v0.8.86/FlClash-0.8.86-linux-";

/// End of the FlClash package address.
pub const FLCLASH_URL_TAIL: &'static str = ".deb";

/// Where the FlClash package is downloaded to.
pub const FLCLASH_DEB: &'static str = "/tmp/flclash.deb";

/// Start of the download command.
pub const WGET_HEAD: &'static str = "wget -O ";

/// Between the target file and the address.
pub const WGET_URL: &'static str = " ";

/// Installs a package file.
pub const DPKG_INSTALL: &'static str = "sudo dpkg -i ";

/// Installs missing dependencies.
pub const APT_FIX: &'static str = "sudo apt-get install -f";

/// The systemd unit of FlClash.
pub const FLCLASH_SERVICE: &'static str = "[Unit]\nDescription=FlClash\nAfter=network.target\n\n[Service]\nType=simple\nUser=nobody\nExecStart=/usr/bin/flclash -d /etc/flclash\nRestart=always\nRestartSec=5\n\n[Install]\nWantedBy=multi-user.target\n";

/// Where the FlClash unit goes.
pub const FLCLASH_SERVICE_FILE: &'static str = "/etc/systemd/system/flclash.service";

/// Creates FlClash's configuration directory.
pub const FLCLASH_ETC: &'static str = "sudo mkdir -p /etc/flclash";

/// Downloads the FlClash configuration from a subscription.
pub const CLASH_UPDATE_SCRIPT: &'static str = "#!/bin/bash\nSUBSCRIPTION_URL=\"$1\"\nCONFIG_DIR=\"/etc/flclash\"\nOLD_CONFIG_FILE=\"$CONFIG_DIR/old_subscription.txt\"\n\nif [ -z \"$SUBSCRIPTION_URL\" ]; then\n    # 如果没有提供新链接，尝试使用旧链接\n    if [ -f \"$OLD_CONFIG_FILE\" ]; then\n        SUBSCRIPTION_URL=$(cat \"$OLD_CONFIG_FILE\")\n        echo \"使用已保存的订阅链接: $SUBSCRIPTION_URL\"\n    else\n        echo \"请提供订阅链接: $0 <subscription_url>\"\n        exit 1\n    fi\nelse\n    # 保存新的订阅链接\n    echo \"$SUBSCRIPTION_URL\" > \"$OLD_CONFIG_FILE\"\n    echo \"订阅链接已保存\"\nfi\n\n# 下载配置文件\necho \"正在下载配置文件...\"\ncurl -L \"$SUBSCRIPTION_URL\" -o \"$CONFIG_DIR/config.yaml\"\n\nif [ $? -eq 0 ]; then\n    echo \"配置文件下载成功\"\n    # 重启服务\n    sudo systemctl restart flclash\n    echo \"FlClash服务已重启\"\nelse\n    echo \"配置文件下载失败\"\n    exit 1\nfi\n";

/// Where the update script goes.
pub const CLASH_UPDATE_FILE: &'static str = "/usr/local/bin/update-clash-config.sh";

/// Makes the update script executable.
pub const CLASH_UPDATE_CHMOD: &'static str = "sudo chmod +x /usr/local/bin/update-clash-config.sh";

/// Start of the command that runs the update script.
pub const CLASH_UPDATE_RUN_HEAD: &'static str = "/usr/local/bin/update-clash-config.sh '";

/// End of the command that runs the update script.
pub const CLASH_UPDATE_RUN_TAIL: &'static str = "'";

/// Enables FlClash.
pub const FLCLASH_ENABLE: &'static str = "sudo systemctl enable flclash";

/// Starts FlClash.
pub const FLCLASH_START: &'static str = "sudo systemctl start flclash";

/// Start of the command that appends to a file as root.
pub const TEE_HEAD: &'static str = "echo '";

/// Between the content and the file.
pub const TEE_MIDDLE: &'static str = "' | sudo tee -a ";

// ── Plans ────────────────────────────────────────────────────────────────────

/// Sets the root password.
pub open spec fn su_password_plan(password: Seq<char>) -> Seq<(StepKind, Seq<char>, Seq<char>)> {
    seq![run_v(SU_PASSWORD_HEAD@ + password + SU_PASSWORD_TAIL@)]
}

/// The steps that set the root password to `password`.
pub fn setup_su_password(password: &str) -> (steps: Vec<Step>)
    ensures
        plan_view(steps@) == su_password_plan(password@),
{
    let mut steps: Vec<Step> = Vec::new();
    steps.push(run_owned(cat3(SU_PASSWORD_HEAD, password, SU_PASSWORD_TAIL)));
    steps
}

/// Installs Rust from the Tsinghua mirror for the user whose home is `home`.
pub open spec fn rust_plan(home: Seq<char>) -> Seq<(StepKind, Seq<char>, Seq<char>)> {
    seq![
        run_v(APT_UPDATE@),
        run_v(RUST_DEPS@),
        run_v(RUSTUP_DIST_EXPORT@),
        run_v(RUSTUP_ROOT_EXPORT@),
        run_v(RUST_INSTALL_SCRIPT@),
        dir_v(home + "/.cargo"@),
        write_v(home + "/.cargo"@ + "/config"@, CARGO_CONFIG@),
        append_v(home + "/.bashrc"@, CARGO_ENV@),
    ]
}

/// The steps that install Rust and point Cargo at the mirror.
pub fn install_rust(home: &str) -> (steps: Vec<Step>)
    ensures
        plan_view(steps@) == rust_plan(home@),
{
    let mut steps: Vec<Step> = Vec::new();
    steps.push(run(APT_UPDATE));
    steps.push(run(RUST_DEPS));
    steps.push(run(RUSTUP_DIST_EXPORT));
    steps.push(run(RUSTUP_ROOT_EXPORT));
    steps.push(run(RUST_INSTALL_SCRIPT));
    let cargo_dir = cat(home, "/.cargo");
    steps.push(write_file(cat(cargo_dir.as_str(), "/config"), CARGO_CONFIG));
    steps.insert(5, create_dir(cargo_dir));
    let bashrc = cat(home, "/.bashrc");
    steps.push(append_to_file(bashrc.as_str(), CARGO_ENV));
    steps
}

/// The Samba share section for `user`, sharing `share_dir`.
pub open spec fn samba_share(user: Seq<char>, share_dir: Seq<char>) -> Seq<char> {
    SAMBA_SHARE_HEAD@ + user + SAMBA_SHARE_PATH@ + share_dir + SAMBA_SHARE_USERS@ + user + SAMBA_SHARE_TAIL@
}

/// Installs Samba and shares `~/smb-share` with `user`, whose password is `password`.
pub open spec fn samba_plan(password: Seq<char>, home: Seq<char>, user: Seq<char>) -> Seq<(StepKind, Seq<char>, Seq<char>)> {
    let share_dir = home + "/smb-share"@;
    seq![
        run_v(SAMBA_INSTALL@),
        dir_v(share_dir),
        run_v(CHMOD_755@ + share_dir),
        append_v(SAMBA_CONF@, samba_share(user, share_dir)),
        run_v(SMBPASSWD_HEAD@ + password + SMBPASSWD_REPEAT@ + password + SMBPASSWD_USER@ + user),
        run_v(SMBD_ENABLE@),
        run_v(SMBD_START@),
    ]
}

/// The steps that install Samba and share a directory.
pub fn install_samba(password: &str, home: &str, user: &str) -> (steps: Vec<Step>)
    ensures
        plan_view(steps@) == samba_plan(password@, home@, user@),
{
    let mut steps: Vec<Step> = Vec::new();
    steps.push(run(SAMBA_INSTALL));
    let share_dir = cat(home, "/smb-share");
    steps.push(run_owned(cat(CHMOD_755, share_dir.as_str())));
    let mut share = cat3(SAMBA_SHARE_HEAD, user, SAMBA_SHARE_PATH);
    share.append(share_dir.as_str());
    share.append(SAMBA_SHARE_USERS);
    share.append(user);
    share.append(SAMBA_SHARE_TAIL);
    steps.push(append_to_file(SAMBA_CONF, share.as_str()));
    let mut passwd = cat3(SMBPASSWD_HEAD, password, SMBPASSWD_REPEAT);
    passwd.append(password);
    passwd.append(SMBPASSWD_USER);
    passwd.append(user);
    steps.push(run_owned(passwd));
    steps.push(run(SMBD_ENABLE));
    steps.push(run(SMBD_START));
    steps.insert(1, create_dir(share_dir));
    steps
}

/// Installs Docker from the Aliyun mirror, adds `user` to the docker group
/// and logs in to the private registry.
pub open spec fn docker_plan(username: Seq<char>, password: Seq<char>, user: Seq<char>) -> Seq<(StepKind, Seq<char>, Seq<char>)> {
    seq![
        run_v(DOCKER_DEPS@),
        run_v(DOCKER_GPG@),
        run_v(DOCKER_REPO@),
        run_v(APT_UPDATE@),
        run_v(DOCKER_INSTALL@),
        run_v(DOCKER_COMPOSE_INSTALL@),
        run_v(DOCKER_GROUP_ADD@ + user),
        dir_v(DOCKER_ETC@),
        write_v(DOCKER_DAEMON_FILE@, DOCKER_DAEMON_JSON@),
        run_v(DAEMON_RELOAD@),
        run_v(DOCKER_RESTART@),
        run_v(DOCKER_ENABLE@),
        run_v(DOCKER_LOGIN_HEAD@ + password + DOCKER_LOGIN_USER@ + username + DOCKER_LOGIN_TAIL@),
    ]
}

/// The steps that install Docker.
pub fn install_docker(username: &str, password: &str, user: &str) -> (steps: Vec<Step>)
    ensures
        plan_view(steps@) == docker_plan(username@, password@, user@),
{
    let mut steps: Vec<Step> = Vec::new();
    steps.push(run(DOCKER_DEPS));
    steps.push(run(DOCKER_GPG));
    steps.push(run(DOCKER_REPO));
    steps.push(run(APT_UPDATE));
    steps.push(run(DOCKER_INSTALL));
    steps.push(run(DOCKER_COMPOSE_INSTALL));
    steps.push(run_owned(cat(DOCKER_GROUP_ADD, user)));
    steps.push(create_dir(String::from_str(DOCKER_ETC)));
    steps.push(write_file(String::from_str(DOCKER_DAEMON_FILE), DOCKER_DAEMON_JSON));
    steps.push(run(DAEMON_RELOAD));
    steps.push(run(DOCKER_RESTART));
    steps.push(run(DOCKER_ENABLE));
    let mut login = cat3(DOCKER_LOGIN_HEAD, password, DOCKER_LOGIN_USER);
    login.append(username);
    login.append(DOCKER_LOGIN_TAIL);
    steps.push(run_owned(login));
    steps
}

/// Installs Caddy from its repository.
pub open spec fn caddy_plan() -> Seq<(StepKind, Seq<char>, Seq<char>)> {
    seq![
        run_v(CADDY_DEPS@),
        run_v(CADDY_GPG@),
        run_v(CADDY_REPO@),
        run_v(APT_UPDATE@),
        run_v(CADDY_INSTALL@),
        run_v(CADDY_ENABLE@),
    ]
}

/// The steps that install Caddy.
pub fn install_caddy() -> (steps: Vec<Step>)
    ensures
        plan_view(steps@) == caddy_plan(),
{
    let mut steps: Vec<Step> = Vec::new();
    steps.push(run(CADDY_DEPS));
    steps.push(run(CADDY_GPG));
    steps.push(run(CADDY_REPO));
    steps.push(run(APT_UPDATE));
    steps.push(run(CADDY_INSTALL));
    steps.push(run(CADDY_ENABLE));
    steps
}

/// Installs cpolar and registers `token`.
pub open spec fn cpolar_plan(token: Seq<char>) -> Seq<(StepKind, Seq<char>, Seq<char>)> {
    seq![run_v(CPOLAR_INSTALL@), run_v(CPOLAR_AUTH@ + token), run_v(CPOLAR_ENABLE@), run_v(CPOLAR_START@)]
}

/// The steps that install cpolar.
pub fn install_cpolar(token: &str) -> (steps: Vec<Step>)
    ensures
        plan_view(steps@) == cpolar_plan(token@),
{
    let mut steps: Vec<Step> = Vec::new();
    steps.push(run(CPOLAR_INSTALL));
    steps.push(run_owned(cat(CPOLAR_AUTH, token)));
    steps.push(run(CPOLAR_ENABLE));
    steps.push(run(CPOLAR_START));
    steps
}

/// Installs certbot and renews the certificates monthly.
pub open spec fn letsencrypt_plan() -> Seq<(StepKind, Seq<char>, Seq<char>)> {
    seq![
        run_v(CERTBOT_INSTALL@),
        write_v(CERT_RENEWAL_FILE@, CERT_RENEWAL_SCRIPT@),
        run_v(CERT_RENEWAL_CHMOD@),
        run_v(CERT_RENEWAL_CRON@),
    ]
}

/// The steps that set up Let's Encrypt renewal.
pub fn setup_letsencrypt() -> (steps: Vec<Step>)
    ensures
        plan_view(steps@) == letsencrypt_plan(),
{
    let mut steps: Vec<Step> = Vec::new();
    steps.push(run(CERTBOT_INSTALL));
    steps.push(write_file(String::from_str(CERT_RENEWAL_FILE), CERT_RENEWAL_SCRIPT));
    steps.push(run(CERT_RENEWAL_CHMOD));
    steps.push(run(CERT_RENEWAL_CRON));
    steps
}

/// Creates `~/app`, copies it to `/usr/local/` and adds the executables
/// below both to PATH.
pub open spec fn app_directory_plan(home: Seq<char>) -> Seq<(StepKind, Seq<char>, Seq<char>)> {
    let app_dir = home + "/app"@;
    seq![
        dir_v(app_dir),
        run_v(APP_COPY_HEAD@ + app_dir + APP_COPY_TAIL@),
        append_v(home + "/.bashrc"@, APP_BASHRC_HEAD@ + (PATH_SCRIPT_HEAD@ + home + PATH_SCRIPT_TAIL@) + APP_BASHRC_TAIL@),
        run_v(ROOT_TEE_HEAD@ + ROOT_BASHRC@ + ROOT_TEE_TAIL@),
    ]
}

/// The steps that set up the app directories.
pub fn setup_app_directory(home: &str) -> (steps: Vec<Step>)
    ensures
        plan_view(steps@) == app_directory_plan(home@),
{
    let mut steps: Vec<Step> = Vec::new();
    let app_dir = cat(home, "/app");
    steps.push(run_owned(cat3(APP_COPY_HEAD, app_dir.as_str(), APP_COPY_TAIL)));
    let path_script = cat3(PATH_SCRIPT_HEAD, home, PATH_SCRIPT_TAIL);
    let content = cat3(APP_BASHRC_HEAD, path_script.as_str(), APP_BASHRC_TAIL);
    let bashrc = cat(home, "/.bashrc");
    steps.push(append_to_file(bashrc.as_str(), content.as_str()));
    steps.push(run_owned(cat3(ROOT_TEE_HEAD, ROOT_BASHRC, ROOT_TEE_TAIL)));
    steps.insert(0, create_dir(app_dir));
    steps
}

/// Installs pyenv and nvm from mirrors, then Python 3.11 and Node.js.
pub open spec fn version_managers_plan(home: Seq<char>) -> Seq<(StepKind, Seq<char>, Seq<char>)> {
    seq![
        run_v(PYENV_DEPS@),
        run_v(PYENV_CLONE_HEAD@ + home + PYENV_CLONE_TAIL@),
        append_v(home + "/.bashrc"@, PYENV_CONFIG_HEAD@ + home + PYENV_CONFIG_TAIL@),
        run_v(NVM_INSTALL@),
        append_v(home + "/.bashrc"@, NPM_CONFIG@),
        run_v(SOURCE_BASHRC@),
        run_v(VERSIONS_HEAD@ + home + VERSIONS_TAIL@),
    ]
}

/// The steps that install the version managers.
pub fn install_version_managers(home: &str) -> (steps: Vec<Step>)
    ensures
        plan_view(steps@) == version_managers_plan(home@),
{
    let mut steps: Vec<Step> = Vec::new();
    let bashrc = cat(home, "/.bashrc");
    steps.push(run(PYENV_DEPS));
    steps.push(run_owned(cat3(PYENV_CLONE_HEAD, home, PYENV_CLONE_TAIL)));
    let pyenv_config = cat3(PYENV_CONFIG_HEAD, home, PYENV_CONFIG_TAIL);
    steps.push(append_to_file(bashrc.as_str(), pyenv_config.as_str()));
    steps.push(run(NVM_INSTALL));
    steps.push(append_to_file(bashrc.as_str(), NPM_CONFIG));
    steps.push(run(SOURCE_BASHRC));
    steps.push(run_owned(cat3(VERSIONS_HEAD, home, VERSIONS_TAIL)));
    steps
}

/// Backs up the SSH configuration, allows password and key logins and
/// restarts SSH.
pub open spec fn ssh_plan() -> Seq<(StepKind, Seq<char>, Seq<char>)> {
    seq![run_v(SSHD_BACKUP@), append_v(SSHD_CONFIG@, SSH_CONFIG@), run_v(SSH_RESTART@)]
}

/// The steps that configure SSH.
pub fn configure_ssh() -> (steps: Vec<Step>)
    ensures
        plan_view(steps@) == ssh_plan(),
{
    let mut steps: Vec<Step> = Vec::new();
    steps.push(run(SSHD_BACKUP));
    steps.push(append_to_file(SSHD_CONFIG, SSH_CONFIG));
    steps.push(run(SSH_RESTART));
    steps
}

/// Installs FlClash for `arch`, with its service and update script, and
/// loads `subscription` when one is given.
pub open spec fn flclash_plan(arch: Seq<char>, subscription: Seq<char>) -> Seq<(StepKind, Seq<char>, Seq<char>)> {
    let url = FLCLASH_URL_HEAD@ + arch + FLCLASH_URL_TAIL@;
    let head = seq![
        run_v(WGET_HEAD@ + FLCLASH_DEB@ + WGET_URL@ + url),
        run_v(DPKG_INSTALL@ + FLCLASH_DEB@),
        run_v(APT_FIX@),
        write_v(FLCLASH_SERVICE_FILE@, FLCLASH_SERVICE@),
        run_v(FLCLASH_ETC@),
        write_v(CLASH_UPDATE_FILE@, CLASH_UPDATE_SCRIPT@),
        run_v(CLASH_UPDATE_CHMOD@),
    ];
    let load = if subscription.len() == 0 {
        Seq::empty()
    } else {
        seq![run_v(CLASH_UPDATE_RUN_HEAD@ + subscription + CLASH_UPDATE_RUN_TAIL@)]
    };
    head + load + seq![run_v(DAEMON_RELOAD@), run_v(FLCLASH_ENABLE@), run_v(FLCLASH_START@)]
}

/// The steps that install FlClash.
pub fn install_flclash(arch: &str, subscription: &str) -> (steps: Vec<Step>)
    ensures
        plan_view(steps@) == flclash_plan(arch@, subscription@),
{
    let mut steps: Vec<Step> = Vec::new();
    let url = cat3(FLCLASH_URL_HEAD, arch, FLCLASH_URL_TAIL);
    let mut download = cat3(WGET_HEAD, FLCLASH_DEB, WGET_URL);
    download.append(url.as_str());
    steps.push(run_owned(download));
    steps.push(run_owned(cat(DPKG_INSTALL, FLCLASH_DEB)));
    steps.push(run(APT_FIX));
    steps.push(write_file(String::from_str(FLCLASH_SERVICE_FILE), FLCLASH_SERVICE));
    steps.push(run(FLCLASH_ETC));
    steps.push(write_file(String::from_str(CLASH_UPDATE_FILE), CLASH_UPDATE_SCRIPT));
    steps.push(run(CLASH_UPDATE_CHMOD));
    if !subscription.is_empty() {
        steps.push(run_owned(cat3(CLASH_UPDATE_RUN_HEAD, subscription, CLASH_UPDATE_RUN_TAIL)));
    }
    steps.push(run(DAEMON_RELOAD));
    steps.push(run(FLCLASH_ENABLE));
    steps.push(run(FLCLASH_START));
    steps
}

} // verus!
