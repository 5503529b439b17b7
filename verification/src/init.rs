//! The shell functions that bring the bookmarks into a shell: one script for
//! each supported shell, built around the name the user picks for the command.

use vstd::prelude::*;
use vstd::string::*;
use crate::text::{fill, filled};

verus! {

/// Stands in the scripts below wherever the command's name goes.
pub const MARK: char = '%';

/// The name of the command where the user picks none.
pub const DEFAULT_COMMAND: &'static str = "t";

/// The script for fish, with `MARK` for the command's name.
pub const FISH: &'static str = r#"function %
    if test (count $argv) -gt 0
        cd (pathmarks guess $argv[1])
        return
    end

    set p (pathmarks pick)
    test -n "$p"; and cd "$p"
end

function %i
    while true
        set -l dest (pathmarks pick)
        set -l code $status

        if test $code -ne 0; or test -z "$dest"
            break
        end

        if test -d "$dest"
            cd "$dest"
        else
            break
        end
    end
end

alias %s "pathmarks save"
alias %d "pathmarks remove"
complete --no-files --keep-order -c % -a "(pathmarks list)"
"#;

/// The script for zsh, with `MARK` for the command's name.
pub const ZSH: &'static str = r#"%() {
  if [[ $# -gt 0 ]]; then
    cd "$(pathmarks guess "$1")"
    return
  fi
  local p
  p="$(pathmarks pick)"
  [[ -n "$p" ]] && cd "$p"
}

%i() {
  while true; do
    local dest
    dest="$(pathmarks pick)"
    local code=$?
    if [[ $code -ne 0 || -z "$dest" ]]; then
      break
    fi
    if [[ -d "$dest" ]]; then
      cd "$dest"
    else
      break
    fi
  done
}

alias %s='pathmarks save'
alias %d='pathmarks remove'

# Completion: compdef + helper that feeds candidates from `pathmarks list`
_%() {
  local -a candidates
  candidates=($(pathmarks list 2>/dev/null))
  compadd -a candidates
}
compdef _% %
"#;

/// The script for bash, with `MARK` for the command's name.
pub const BASH: &'static str = r#"%() {
  if [[ $# -gt 0 ]]; then
    cd "$(pathmarks guess "$1")"
    return
  fi
  local p
  p="$(pathmarks pick)"
  [[ -n "$p" ]] && cd "$p"
}

%i() {
  while true; do
    local dest
    dest="$(pathmarks pick)"
    local code=$?
    if [[ $code -ne 0 || -z "$dest" ]]; then
      break
    fi
    if [[ -d "$dest" ]]; then
      cd "$dest"
    else
      break
    fi
  done
}

alias %s='pathmarks save'
alias %d='pathmarks remove'

_%_complete() {
  local cur
  cur="${COMP_WORDS[COMP_CWORD]}"
  # Collect candidates from `pathmarks list`
  COMPREPLY=($(compgen -W "$(pathmarks list 2>/dev/null)" -- "$cur"))
}
complete -o filenames -F _%_complete %
"#;

/// The script for nushell, with `MARK` for the command's name.
pub const NUSHELL: &'static str = r#"export def "nu-complete pathmarks" [] {
  pathmarks list | lines
}

export def --env % [name?: string@"nu-complete pathmarks"] {
  if $name != null {
    cd (pathmarks guess $name)
  } else {
    let p = (pathmarks pick)
    if $p != "" {
      cd $p
    }
  }
}

export def --env %i [] {
  loop {
    let dest = (pathmarks pick)
    let code = $env.LAST_EXIT_CODE
    if $code != 0 or ($dest | is-empty) {
      break
    }
    if ($dest | path exists) and (($dest | path type) == "dir") {
      cd $dest
    } else {
      break
    }
  }
}

export alias %s = pathmarks save
"#;

/// A shell that a script can be written for.
#[derive(Copy, Clone, Debug)]
pub enum Shell {
    Fish,
    Zsh,
    Bash,
    Nushell,
}

/// The script of `shell`, with `MARK` for the command's name.
pub open spec fn template(shell: Shell) -> Seq<char> {
    match shell {
        Shell::Fish => FISH@,
        Shell::Zsh => ZSH@,
        Shell::Bash => BASH@,
        Shell::Nushell => NUSHELL@,
    }
}

/// The command's name: the one given, or the default.
pub open spec fn command_name(command: Option<String>) -> Seq<char> {
    match command {
        Some(name) => name@,
        None => DEFAULT_COMMAND@,
    }
}

/// The script that defines the command for `shell`, under the name given or
/// under the default name.
pub fn init(shell: Shell, command: Option<String>) -> (script: String)
    ensures
        script@ == filled(template(shell), MARK, command_name(command)),
{
    let name = match command {
        Some(name) => name,
        None => String::from_str(DEFAULT_COMMAND),
    };
    match shell {
        Shell::Fish => fish_init(name.as_str()),
        Shell::Zsh => zsh_init(name.as_str()),
        Shell::Bash => bash_init(name.as_str()),
        Shell::Nushell => nushell_init(name.as_str()),
    }
}

/// The script for fish under the name `command`.
pub fn fish_init(command: &str) -> (script: String)
    ensures
        script@ == filled(FISH@, MARK, command@),
{
    fill(FISH, MARK, command)
}

/// The script for zsh under the name `command`.
pub fn zsh_init(command: &str) -> (script: String)
    ensures
        script@ == filled(ZSH@, MARK, command@),
{
    fill(ZSH, MARK, command)
}

/// The script for bash under the name `command`.
pub fn bash_init(command: &str) -> (script: String)
    ensures
        script@ == filled(BASH@, MARK, command@),
{
    fill(BASH, MARK, command)
}

/// The script for nushell under the name `command`.
pub fn nushell_init(command: &str) -> (script: String)
    ensures
        script@ == filled(NUSHELL@, MARK, command@),
{
    fill(NUSHELL, MARK, command)
}

} // verus!
