//! The script that the remote machine runs as `sshpal-run`.
use vstd::prelude::*;

verus! {

/// What stands in the script for the port of the local server.
pub const PORT_MARK: &'static str = "__SSHPAL_RPC_PORT__";

/// The script, before the port is filled in. It asks the local server through the reverse
/// tunnel to run a task, and replays what the server sends back.
pub const HELPER_SCRIPT: &'static str = r#"#!/bin/sh
# Runs a task on the local machine, through the reverse tunnel of sshpal.

usage() {
    echo "usage: sshpal-run <task> [name=value ...] [-- <args...>]" >&2
    echo "       sshpal-run tasks-help" >&2
    echo "       sshpal-run checkhealth" >&2
}

fail() {
    echo "sshpal-run: $1" >&2
    exit "$2"
}

if [ "$#" -eq 0 ]; then
    usage
    exit 2
fi

task=$1
shift

case "$task" in
    -h | --help)
        usage
        exit 0
        ;;
    tasks-help)
        exec curl -fsS "http://127.0.0.1:__SSHPAL_RPC_PORT__/tasks-help"
        ;;
    checkhealth)
        exec curl -fsS "http://127.0.0.1:__SSHPAL_RPC_PORT__/checkhealth"
        ;;
esac

command -v curl >/dev/null 2>&1 || fail "requires curl" 127
command -v jq >/dev/null 2>&1 || fail "requires jq" 127
command -v base64 >/dev/null 2>&1 || fail "requires base64" 127

vars='{}'
while [ "$#" -gt 0 ]; do
    case "$1" in
        --)
            shift
            break
            ;;
        *=*)
            vars=$(printf '%s' "$vars" | jq -c --arg name "${1%%=*}" --arg value "${1#*=}" '.[$name] = $value') || exit 1
            shift
            ;;
        *)
            fail "invalid task argument \`$1\`; use name=value before \`--\`" 2
            ;;
    esac
done

args='[]'
for arg in "$@"; do
    args=$(printf '%s' "$args" | jq -c --arg value "$arg" '. + [$value]') || exit 1
done

# The sync token goes to the project root, for the file sync to carry it over.
root=$(pwd)
while [ ! -f "$root/.sshpal.toml" ] && [ "$root" != / ]; do
    root=$(dirname "$root")
done
[ -f "$root/.sshpal.toml" ] || root=$(pwd)
token="$(date +%s)-$$"
mkdir -p "$root/.sshpal" || fail "cannot create $root/.sshpal" 1
printf '%s\n' "$token" >"$root/.sshpal/sync-token" || fail "cannot write $root/.sshpal/sync-token" 1

request=$(jq -cn --arg task "$task" --argjson vars "$vars" --argjson args "$args" --arg token "$token" \
    '{task: $task, vars: $vars, args: $args, sync_token: $token}') || exit 1

printf '%s' "$request" |
    curl -sS -N -X POST -H 'Content-Type: application/json' --data-binary @- \
        "http://127.0.0.1:__SSHPAL_RPC_PORT__/run" |
    {
        code=1
        while IFS= read -r line || [ -n "$line" ]; do
            [ -n "$line" ] || continue
            kind=$(printf '%s' "$line" | jq -r '.type // empty' 2>/dev/null)
            case "$kind" in
                stdout)
                    printf '%s' "$line" | jq -r '.chunk_b64' | base64 -d
                    ;;
                stderr)
                    printf '%s' "$line" | jq -r '.chunk_b64' | base64 -d >&2
                    ;;
                exit)
                    code=$(printf '%s' "$line" | jq -r '.code')
                    ;;
                *)
                    printf '%s\n' "$line" >&2
                    ;;
            esac
        done
        exit "$code"
    }
"#;

} // verus!
