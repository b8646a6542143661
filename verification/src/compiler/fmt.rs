//! The text pieces of the generated data-plane program, each as a spec
//! function and a function that appends it to a buffer.

use crate::text::{dec_chars, push_dec, push_str};
use vstd::prelude::*;

verus! {

/// The declaration of a character buffer variable.
pub open spec fn ctx_def_char(name: Seq<char>, size: nat) -> Seq<char> {
    "struct prange "@ + name + "_range;\nchar "@ + name + "["@ + dec_chars(size) + "];"@
}

/// Appends `ctx_def_char` to `out`.
pub fn push_ctx_def_char(out: &mut String, name: &str, size: u128)
    ensures
        final(out)@ == old(out)@ + ctx_def_char(name@, size as nat),
{
    let ghost before = out@;
    push_str(out, "struct prange ");
    push_str(out, name);
    push_str(out, "_range;\nchar ");
    push_str(out, name);
    push_str(out, "[");
    push_dec(out, size);
    push_str(out, "];");
    assert(out@ =~= before + ctx_def_char(name@, size as nat));
}

/// The declaration of a variable of another type.
pub open spec fn ctx_def_other(name: Seq<char>, ty: Seq<char>) -> Seq<char> {
    "struct prange "@ + name + "_range;\n"@ + ty + " "@ + name + ";"@
}

/// Appends `ctx_def_other` to `out`.
pub fn push_ctx_def_other(out: &mut String, name: &str, ty: &str)
    ensures
        final(out)@ == old(out)@ + ctx_def_other(name@, ty@),
{
    let ghost before = out@;
    push_str(out, "struct prange ");
    push_str(out, name);
    push_str(out, "_range;\n");
    push_str(out, ty);
    push_str(out, " ");
    push_str(out, name);
    push_str(out, ";");
    assert(out@ =~= before + ctx_def_other(name@, ty@));
}

/// The declaration of a range variable.
pub open spec fn ctx_def_range(name: Seq<char>) -> Seq<char> {
    "struct prange "@ + name + "_range;"@
}

/// Appends `ctx_def_range` to `out`.
pub fn push_ctx_def_range(out: &mut String, name: &str)
    ensures
        final(out)@ == old(out)@ + ctx_def_range(name@),
{
    let ghost before = out@;
    push_str(out, "struct prange ");
    push_str(out, name);
    push_str(out, "_range;");
    assert(out@ =~= before + ctx_def_range(name@));
}

/// The initialisation of a character buffer variable.
pub open spec fn ctx_init_char(idx: nat, name: Seq<char>, mask: nat) -> Seq<char> {
    "r = pranges["@ + dec_chars(idx) + "];
                            r.len &= "@ + dec_chars(mask) + ";
                            bpf_probe_read_kernel(ctx->"@ + name + ", r.len, data + r.idx);
                            ctx->"@ + name + "_range = r;
                            bpf_log(\""@ + name + " inited to %s\", ctx->"@ + name + ");"@
}

/// Appends `ctx_init_char` to `out`.
pub fn push_ctx_init_char(out: &mut String, idx: u128, name: &str, mask: u128)
    ensures
        final(out)@ == old(out)@ + ctx_init_char(idx as nat, name@, mask as nat),
{
    let ghost before = out@;
    push_str(out, "r = pranges[");
    push_dec(out, idx);
    push_str(out, "];
                            r.len &= ");
    push_dec(out, mask);
    push_str(out, ";
                            bpf_probe_read_kernel(ctx->");
    push_str(out, name);
    push_str(out, ", r.len, data + r.idx);
                            ctx->");
    push_str(out, name);
    push_str(out, "_range = r;
                            bpf_log(\"");
    push_str(out, name);
    push_str(out, " inited to %s\", ctx->");
    push_str(out, name);
    push_str(out, ");");
    assert(out@ =~= before + ctx_init_char(idx as nat, name@, mask as nat));
}

/// The initialisation of a `u32` variable.
pub open spec fn ctx_init_u32(i: nat, name: Seq<char>) -> Seq<char> {
    "r = pranges["@ + dec_chars(i) + "];
                                r.len &= 0x3f;
                                bpf_probe_read_kernel(buf, r.len, data + r.idx);
                                buf[r.len] = '\\0'; // this way, we don't need an if-clause
                                bpf_strtoul(buf, r.len + 1, 10, &tmp);
                                ctx->"@ + name + " = tmp;
                                ctx->"@ + name + "_range = r;
                                bpf_log(\""@ + name + " inited to %d\", ctx->"@ + name + ");"@
}

/// Appends `ctx_init_u32` to `out`.
pub fn push_ctx_init_u32(out: &mut String, i: u128, name: &str)
    ensures
        final(out)@ == old(out)@ + ctx_init_u32(i as nat, name@),
{
    let ghost before = out@;
    push_str(out, "r = pranges[");
    push_dec(out, i);
    push_str(out, "];
                                r.len &= 0x3f;
                                bpf_probe_read_kernel(buf, r.len, data + r.idx);
                                buf[r.len] = '\\0'; // this way, we don't need an if-clause
                                bpf_strtoul(buf, r.len + 1, 10, &tmp);
                                ctx->");
    push_str(out, name);
    push_str(out, " = tmp;
                                ctx->");
    push_str(out, name);
    push_str(out, "_range = r;
                                bpf_log(\"");
    push_str(out, name);
    push_str(out, " inited to %d\", ctx->");
    push_str(out, name);
    push_str(out, ");");
    assert(out@ =~= before + ctx_init_u32(i as nat, name@));
}

/// Code that is compiled only with statistics on.
pub open spec fn ctx_init_stats(code: Seq<char>) -> Seq<char> {
    "#if STATS == 1\n"@ + code + "\n#endif"@
}

/// Appends `ctx_init_stats` to `out`.
pub fn push_ctx_init_stats(out: &mut String, code: &str)
    ensures
        final(out)@ == old(out)@ + ctx_init_stats(code@),
{
    let ghost before = out@;
    push_str(out, "#if STATS == 1\n");
    push_str(out, code);
    push_str(out, "\n#endif");
    assert(out@ =~= before + ctx_init_stats(code@));
}

/// The initialisation of a range variable.
pub open spec fn ctx_init_range(name: Seq<char>, i: nat) -> Seq<char> {
    "ctx->"@ + name + "_range = pranges["@ + dec_chars(i) + "];
                            bpf_log(\""@ + name + " inited to (%d, %d)\", ctx->"@ + name + "_range.idx, ctx->"@ + name + "_range.len);"@
}

/// Appends `ctx_init_range` to `out`.
pub fn push_ctx_init_range(out: &mut String, name: &str, i: u128)
    ensures
        final(out)@ == old(out)@ + ctx_init_range(name@, i as nat),
{
    let ghost before = out@;
    push_str(out, "ctx->");
    push_str(out, name);
    push_str(out, "_range = pranges[");
    push_dec(out, i);
    push_str(out, "];
                            bpf_log(\"");
    push_str(out, name);
    push_str(out, " inited to (%d, %d)\", ctx->");
    push_str(out, name);
    push_str(out, "_range.idx, ctx->");
    push_str(out, name);
    push_str(out, "_range.len);");
    assert(out@ =~= before + ctx_init_range(name@, i as nat));
}

/// The audience claim as it stands in the claims text.
pub open spec fn jwt_claim_aud(value: Seq<char>) -> Seq<char> {
    "\\\"aud\\\":\\\""@ + value + "\\\""@
}

/// Appends `jwt_claim_aud` to `out`.
pub fn push_jwt_claim_aud(out: &mut String, value: &str)
    ensures
        final(out)@ == old(out)@ + jwt_claim_aud(value@),
{
    let ghost before = out@;
    push_str(out, "\\\"aud\\\":\\\"");
    push_str(out, value);
    push_str(out, "\\\"");
    assert(out@ =~= before + jwt_claim_aud(value@));
}

/// The issuer claim as it stands in the claims text.
pub open spec fn jwt_claim_iss(value: Seq<char>) -> Seq<char> {
    "\\\"iss\\\":\\\""@ + value + "\\\""@
}

/// Appends `jwt_claim_iss` to `out`.
pub fn push_jwt_claim_iss(out: &mut String, value: &str)
    ensures
        final(out)@ == old(out)@ + jwt_claim_iss(value@),
{
    let ghost before = out@;
    push_str(out, "\\\"iss\\\":\\\"");
    push_str(out, value);
    push_str(out, "\\\"");
    assert(out@ =~= before + jwt_claim_iss(value@));
}

/// The call of the JWT checks of a route.
pub open spec fn jwt_call(verify: Seq<char>, idx: nat) -> Seq<char> {
    verify + "\nif (_validate_jwt_admission_"@ + dec_chars(idx) + "(ctx) != PR_PASS) return PR_DROP;"@
}

/// Appends `jwt_call` to `out`.
pub fn push_jwt_call(out: &mut String, verify: &str, idx: u128)
    ensures
        final(out)@ == old(out)@ + jwt_call(verify@, idx as nat),
{
    let ghost before = out@;
    push_str(out, verify);
    push_str(out, "\nif (_validate_jwt_admission_");
    push_dec(out, idx);
    push_str(out, "(ctx) != PR_PASS) return PR_DROP;");
    assert(out@ =~= before + jwt_call(verify@, idx as nat));
}

/// Shifting a captured range that lies behind a mutation.
pub open spec fn mutate_offset(name: Seq<char>, idx: Seq<char>, off: Seq<char>) -> Seq<char> {
    "if (ctx->"@ + name + "_range.idx >= "@ + idx + ") {
                            ctx->"@ + name + "_range.idx += "@ + off + ";
                        }"@
}

/// Appends `mutate_offset` to `out`.
pub fn push_mutate_offset(out: &mut String, name: &str, idx: &str, off: &str)
    ensures
        final(out)@ == old(out)@ + mutate_offset(name@, idx@, off@),
{
    let ghost before = out@;
    push_str(out, "if (ctx->");
    push_str(out, name);
    push_str(out, "_range.idx >= ");
    push_str(out, idx);
    push_str(out, ") {
                            ctx->");
    push_str(out, name);
    push_str(out, "_range.idx += ");
    push_str(out, off);
    push_str(out, ";
                        }");
    assert(out@ =~= before + mutate_offset(name@, idx@, off@));
}

/// Removing the JWT of an Authorization header.
pub open spec fn mutate_remove_auth(key: Seq<char>, key_len: nat, key_len_crlf: nat, offset: Seq<char>) -> Seq<char> {
    "if (ctx->jwt_claims_range.len > 0) {
                            remove_range.idx = ctx->jwt_claims_range.idx-7-"@ + dec_chars(key_len) + ";
                            remove_range.len = ctx->jwt_claims_range.len+ctx->jwt_sig_range.len+8+"@ + dec_chars(key_len_crlf) + ";
                            if (_mutate_msg(msg, remove_range, NULL, 0) < 0) {
                                bpf_err(\"ERROR: Failed to remove "@ + key + "\");
                                return PR_DROP;
                            }
                            ctx->done_idx -= remove_range.len;
                            "@ + offset + "
                        }"@
}

/// Appends `mutate_remove_auth` to `out`.
pub fn push_mutate_remove_auth(out: &mut String, key: &str, key_len: u128, key_len_crlf: u128, offset: &str)
    ensures
        final(out)@ == old(out)@ + mutate_remove_auth(key@, key_len as nat, key_len_crlf as nat, offset@),
{
    let ghost before = out@;
    push_str(out, "if (ctx->jwt_claims_range.len > 0) {
                            remove_range.idx = ctx->jwt_claims_range.idx-7-");
    push_dec(out, key_len);
    push_str(out, ";
                            remove_range.len = ctx->jwt_claims_range.len+ctx->jwt_sig_range.len+8+");
    push_dec(out, key_len_crlf);
    push_str(out, ";
                            if (_mutate_msg(msg, remove_range, NULL, 0) < 0) {
                                bpf_err(\"ERROR: Failed to remove ");
    push_str(out, key);
    push_str(out, "\");
                                return PR_DROP;
                            }
                            ctx->done_idx -= remove_range.len;
                            ");
    push_str(out, offset);
    push_str(out, "
                        }");
    assert(out@ =~= before + mutate_remove_auth(key@, key_len as nat, key_len_crlf as nat, offset@));
}

/// Removing a header.
pub open spec fn mutate_remove_hdr(rmv_auth: Seq<char>, key: Seq<char>, key_len: nat, key_len_crlf: nat, offset: Seq<char>) -> Seq<char> {
    rmv_auth + "
                    if (ctx->"@ + key + "_range.len > 0) {
                        remove_range.idx = ctx->"@ + key + "_range.idx-"@ + dec_chars(key_len) + ";
                        remove_range.len = ctx->"@ + key + "_range.len+"@ + dec_chars(key_len_crlf) + ";
                        if (_mutate_msg(msg, remove_range, NULL, 0) < 0) {
                            bpf_err(\"ERROR: Failed to remove "@ + key + "\");
                            return PR_DROP;
                        }
                        ctx->done_idx -= remove_range.len;
                        "@ + offset + "
                    }"@
}

/// Appends `mutate_remove_hdr` to `out`.
pub fn push_mutate_remove_hdr(out: &mut String, rmv_auth: &str, key: &str, key_len: u128, key_len_crlf: u128, offset: &str)
    ensures
        final(out)@ == old(out)@ + mutate_remove_hdr(rmv_auth@, key@, key_len as nat, key_len_crlf as nat, offset@),
{
    let ghost before = out@;
    push_str(out, rmv_auth);
    push_str(out, "
                    if (ctx->");
    push_str(out, key);
    push_str(out, "_range.len > 0) {
                        remove_range.idx = ctx->");
    push_str(out, key);
    push_str(out, "_range.idx-");
    push_dec(out, key_len);
    push_str(out, ";
                        remove_range.len = ctx->");
    push_str(out, key);
    push_str(out, "_range.len+");
    push_dec(out, key_len_crlf);
    push_str(out, ";
                        if (_mutate_msg(msg, remove_range, NULL, 0) < 0) {
                            bpf_err(\"ERROR: Failed to remove ");
    push_str(out, key);
    push_str(out, "\");
                            return PR_DROP;
                        }
                        ctx->done_idx -= remove_range.len;
                        ");
    push_str(out, offset);
    push_str(out, "
                    }");
    assert(out@ =~= before + mutate_remove_hdr(rmv_auth@, key@, key_len as nat, key_len_crlf as nat, offset@));
}

/// A header line to add.
pub open spec fn mutate_new_hdr(key: Seq<char>, val: Seq<char>) -> Seq<char> {
    key + ": "@ + val + "\\r\\n"@
}

/// Appends `mutate_new_hdr` to `out`.
pub fn push_mutate_new_hdr(out: &mut String, key: &str, val: &str)
    ensures
        final(out)@ == old(out)@ + mutate_new_hdr(key@, val@),
{
    let ghost before = out@;
    push_str(out, key);
    push_str(out, ": ");
    push_str(out, val);
    push_str(out, "\\r\\n");
    assert(out@ =~= before + mutate_new_hdr(key@, val@));
}

/// Adding a header.
pub open spec fn mutate_add_hdr(new_hdr: Seq<char>, hdr_len: nat) -> Seq<char> {
    "new_hdr = \""@ + new_hdr + "\";
                        if (_mutate(msg, append_range, new_hdr, "@ + dec_chars(hdr_len) + ", is_skb) < 0) {
                            bpf_err(\"ERROR: Failed to add %s\", new_hdr);
                            return PR_DROP;
                        }
                        ctx->done_idx += "@ + dec_chars(hdr_len) + ";"@
}

/// Appends `mutate_add_hdr` to `out`.
pub fn push_mutate_add_hdr(out: &mut String, new_hdr: &str, hdr_len: u128)
    ensures
        final(out)@ == old(out)@ + mutate_add_hdr(new_hdr@, hdr_len as nat),
{
    let ghost before = out@;
    push_str(out, "new_hdr = \"");
    push_str(out, new_hdr);
    push_str(out, "\";
                        if (_mutate(msg, append_range, new_hdr, ");
    push_dec(out, hdr_len);
    push_str(out, ", is_skb) < 0) {
                            bpf_err(\"ERROR: Failed to add %s\", new_hdr);
                            return PR_DROP;
                        }
                        ctx->done_idx += ");
    push_dec(out, hdr_len);
    push_str(out, ";");
    assert(out@ =~= before + mutate_add_hdr(new_hdr@, hdr_len as nat));
}

/// The call of the mutations of a route.
pub open spec fn mutate_call(idx: nat) -> Seq<char> {
    "if (_mutate_"@ + dec_chars(idx) + "(msg, ctx, is_skb) != PR_PASS) return PR_DROP;"@
}

/// Appends `mutate_call` to `out`.
pub fn push_mutate_call(out: &mut String, idx: u128)
    ensures
        final(out)@ == old(out)@ + mutate_call(idx as nat),
{
    let ghost before = out@;
    push_str(out, "if (_mutate_");
    push_dec(out, idx);
    push_str(out, "(msg, ctx, is_skb) != PR_PASS) return PR_DROP;");
    assert(out@ =~= before + mutate_call(idx as nat));
}

/// One slot of the hash ring.
pub open spec fn lb_ring_entry(ip4: nat, port: nat) -> Seq<char> {
    "{.ip4 = "@ + dec_chars(ip4) + ", .port = "@ + dec_chars(port) + "},"@
}

/// Appends `lb_ring_entry` to `out`.
pub fn push_lb_ring_entry(out: &mut String, ip4: u128, port: u128)
    ensures
        final(out)@ == old(out)@ + lb_ring_entry(ip4 as nat, port as nat),
{
    let ghost before = out@;
    push_str(out, "{.ip4 = ");
    push_dec(out, ip4);
    push_str(out, ", .port = ");
    push_dec(out, port);
    push_str(out, "},");
    assert(out@ =~= before + lb_ring_entry(ip4 as nat, port as nat));
}

/// The call of the load balancer of a route.
pub open spec fn lb_call(idx: nat) -> Seq<char> {
    "_load_balance_"@ + dec_chars(idx) + "(ctx, ikey);"@
}

/// Appends `lb_call` to `out`.
pub fn push_lb_call(out: &mut String, idx: u128)
    ensures
        final(out)@ == old(out)@ + lb_call(idx as nat),
{
    let ghost before = out@;
    push_str(out, "_load_balance_");
    push_dec(out, idx);
    push_str(out, "(ctx, ikey);");
    assert(out@ =~= before + lb_call(idx as nat));
}

/// The condition on the request path of a route.
pub open spec fn route_path_cond(len: nat, path: Seq<char>) -> Seq<char> {
    "bpf_strncmp(ctx->path, "@ + dec_chars(len) + ", \""@ + path + " \") == 0"@
}

/// Appends `route_path_cond` to `out`.
pub fn push_route_path_cond(out: &mut String, len: u128, path: &str)
    ensures
        final(out)@ == old(out)@ + route_path_cond(len as nat, path@),
{
    let ghost before = out@;
    push_str(out, "bpf_strncmp(ctx->path, ");
    push_dec(out, len);
    push_str(out, ", \"");
    push_str(out, path);
    push_str(out, " \") == 0");
    assert(out@ =~= before + route_path_cond(len as nat, path@));
}

/// The condition on a header of a route.
pub open spec fn route_hdr_cond(key: Seq<char>, len: nat, val: Seq<char>) -> Seq<char> {
    "bpf_strncmp(ctx->"@ + key + ", "@ + dec_chars(len) + ", \""@ + val + "\") == 0"@
}

/// Appends `route_hdr_cond` to `out`.
pub fn push_route_hdr_cond(out: &mut String, key: &str, len: u128, val: &str)
    ensures
        final(out)@ == old(out)@ + route_hdr_cond(key@, len as nat, val@),
{
    let ghost before = out@;
    push_str(out, "bpf_strncmp(ctx->");
    push_str(out, key);
    push_str(out, ", ");
    push_dec(out, len);
    push_str(out, ", \"");
    push_str(out, val);
    push_str(out, "\") == 0");
    assert(out@ =~= before + route_hdr_cond(key@, len as nat, val@));
}

/// The dispatch of a request to a route.
pub open spec fn route_cond(else_if: Seq<char>, path_cond: Seq<char>, hdr_cond: Seq<char>, idx: nat) -> Seq<char> {
    else_if + "if ("@ + path_cond + " && "@ + hdr_cond + ") {
                    if (route_ds_"@ + dec_chars(idx) + "(msg, ctx, ikey, is_skb) != PR_PASS) {
                            bpf_err(\"ERROR: route_"@ + dec_chars(idx) + " failed.\");
                        }
                    }"@
}

/// Appends `route_cond` to `out`.
pub fn push_route_cond(out: &mut String, else_if: &str, path_cond: &str, hdr_cond: &str, idx: u128)
    ensures
        final(out)@ == old(out)@ + route_cond(else_if@, path_cond@, hdr_cond@, idx as nat),
{
    let ghost before = out@;
    push_str(out, else_if);
    push_str(out, "if (");
    push_str(out, path_cond);
    push_str(out, " && ");
    push_str(out, hdr_cond);
    push_str(out, ") {
                    if (route_ds_");
    push_dec(out, idx);
    push_str(out, "(msg, ctx, ikey, is_skb) != PR_PASS) {
                            bpf_err(\"ERROR: route_");
    push_dec(out, idx);
    push_str(out, " failed.\");
                        }
                    }");
    assert(out@ =~= before + route_cond(else_if@, path_cond@, hdr_cond@, idx as nat));
}

/// Sending a request to a single instance.
pub open spec fn route_dest(ip4: nat, port: nat) -> Seq<char> {
    "ctx->dest.ip4 = "@ + dec_chars(ip4) + ";
                        ctx->dest.port = "@ + dec_chars(port) + ";"@
}

/// Appends `route_dest` to `out`.
pub fn push_route_dest(out: &mut String, ip4: u128, port: u128)
    ensures
        final(out)@ == old(out)@ + route_dest(ip4 as nat, port as nat),
{
    let ghost before = out@;
    push_str(out, "ctx->dest.ip4 = ");
    push_dec(out, ip4);
    push_str(out, ";
                        ctx->dest.port = ");
    push_dec(out, port);
    push_str(out, ";");
    assert(out@ =~= before + route_dest(ip4 as nat, port as nat));
}

/// The body of a route: its filter calls, then its forwarding.
pub open spec fn route_chain(calls: Seq<char>, dest: Seq<char>) -> Seq<char> {
    "
                    "@ + calls + "
                    "@ + dest + "
                "@
}

/// Appends `route_chain` to `out`.
pub fn push_route_chain(out: &mut String, calls: &str, dest: &str)
    ensures
        final(out)@ == old(out)@ + route_chain(calls@, dest@),
{
    let ghost before = out@;
    push_str(out, "
                    ");
    push_str(out, calls);
    push_str(out, "
                    ");
    push_str(out, dest);
    push_str(out, "
                ");
    assert(out@ =~= before + route_chain(calls@, dest@));
}

/// The condition on the request method of a policy.
pub open spec fn rbac_method_cond(len: nat, method: Seq<char>) -> Seq<char> {
    "bpf_strncmp(ctx->method, "@ + dec_chars(len) + ", \""@ + method + "\") == 0"@
}

/// Appends `rbac_method_cond` to `out`.
pub fn push_rbac_method_cond(out: &mut String, len: u128, method: &str)
    ensures
        final(out)@ == old(out)@ + rbac_method_cond(len as nat, method@),
{
    let ghost before = out@;
    push_str(out, "bpf_strncmp(ctx->method, ");
    push_dec(out, len);
    push_str(out, ", \"");
    push_str(out, method);
    push_str(out, "\") == 0");
    assert(out@ =~= before + rbac_method_cond(len as nat, method@));
}

/// The condition on the request path of a policy.
pub open spec fn rbac_path_cond(len: nat, path: Seq<char>) -> Seq<char> {
    "bpf_strncmp(ctx->path, "@ + dec_chars(len) + ", \""@ + path + "\") == 0"@
}

/// Appends `rbac_path_cond` to `out`.
pub fn push_rbac_path_cond(out: &mut String, len: u128, path: &str)
    ensures
        final(out)@ == old(out)@ + rbac_path_cond(len as nat, path@),
{
    let ghost before = out@;
    push_str(out, "bpf_strncmp(ctx->path, ");
    push_dec(out, len);
    push_str(out, ", \"");
    push_str(out, path);
    push_str(out, "\") == 0");
    assert(out@ =~= before + rbac_path_cond(len as nat, path@));
}

/// The condition on the destination address of a policy.
pub open spec fn rbac_dest_ip_cond(ip4: nat) -> Seq<char> {
    "ctx->dest.ip4 == "@ + dec_chars(ip4)
}

/// Appends `rbac_dest_ip_cond` to `out`.
pub fn push_rbac_dest_ip_cond(out: &mut String, ip4: u128)
    ensures
        final(out)@ == old(out)@ + rbac_dest_ip_cond(ip4 as nat),
{
    let ghost before = out@;
    push_str(out, "ctx->dest.ip4 == ");
    push_dec(out, ip4);
    assert(out@ =~= before + rbac_dest_ip_cond(ip4 as nat));
}

/// The condition on the destination port of a policy.
pub open spec fn rbac_dest_port_cond(port: nat) -> Seq<char> {
    "ctx->dest.port == "@ + dec_chars(port)
}

/// Appends `rbac_dest_port_cond` to `out`.
pub fn push_rbac_dest_port_cond(out: &mut String, port: u128)
    ensures
        final(out)@ == old(out)@ + rbac_dest_port_cond(port as nat),
{
    let ghost before = out@;
    push_str(out, "ctx->dest.port == ");
    push_dec(out, port);
    assert(out@ =~= before + rbac_dest_port_cond(port as nat));
}

/// The condition on the source address of a policy.
pub open spec fn rbac_src_ip_cond(ip4: nat) -> Seq<char> {
    "ikey->local.ip4 == "@ + dec_chars(ip4)
}

/// Appends `rbac_src_ip_cond` to `out`.
pub fn push_rbac_src_ip_cond(out: &mut String, ip4: u128)
    ensures
        final(out)@ == old(out)@ + rbac_src_ip_cond(ip4 as nat),
{
    let ghost before = out@;
    push_str(out, "ikey->local.ip4 == ");
    push_dec(out, ip4);
    assert(out@ =~= before + rbac_src_ip_cond(ip4 as nat));
}

/// The condition on a header of a policy.
pub open spec fn rbac_hdr_cond(key: Seq<char>, len: nat, val: Seq<char>) -> Seq<char> {
    "bpf_strncmp(ctx->"@ + key + ", "@ + dec_chars(len) + ", \""@ + val + "\") == 0"@
}

/// Appends `rbac_hdr_cond` to `out`.
pub fn push_rbac_hdr_cond(out: &mut String, key: &str, len: u128, val: &str)
    ensures
        final(out)@ == old(out)@ + rbac_hdr_cond(key@, len as nat, val@),
{
    let ghost before = out@;
    push_str(out, "bpf_strncmp(ctx->");
    push_str(out, key);
    push_str(out, ", ");
    push_dec(out, len);
    push_str(out, ", \"");
    push_str(out, val);
    push_str(out, "\") == 0");
    assert(out@ =~= before + rbac_hdr_cond(key@, len as nat, val@));
}

/// A condition in parentheses.
pub open spec fn rbac_paren(cond: Seq<char>) -> Seq<char> {
    "("@ + cond + ")"@
}

/// Appends `rbac_paren` to `out`.
pub fn push_rbac_paren(out: &mut String, cond: &str)
    ensures
        final(out)@ == old(out)@ + rbac_paren(cond@),
{
    let ghost before = out@;
    push_str(out, "(");
    push_str(out, cond);
    push_str(out, ")");
    assert(out@ =~= before + rbac_paren(cond@));
}

/// What a matching allowing policy does.
pub open spec fn rbac_allow(name: Seq<char>) -> Seq<char> {
    "bpf_log(\"RBAC: "@ + name + "\");
                    bpf_stats_add(http_rbac_allowed, 1);
                    return PR_PASS;"@
}

/// Appends `rbac_allow` to `out`.
pub fn push_rbac_allow(out: &mut String, name: &str)
    ensures
        final(out)@ == old(out)@ + rbac_allow(name@),
{
    let ghost before = out@;
    push_str(out, "bpf_log(\"RBAC: ");
    push_str(out, name);
    push_str(out, "\");
                    bpf_stats_add(http_rbac_allowed, 1);
                    return PR_PASS;");
    assert(out@ =~= before + rbac_allow(name@));
}

/// What a matching denying policy does.
pub open spec fn rbac_deny(name: Seq<char>) -> Seq<char> {
    "bpf_log(\"RBAC "@ + name + " denied\");
                    bpf_stats_add(http_rbac_denied, 1);
                    return SK_DROP;"@
}

/// Appends `rbac_deny` to `out`.
pub fn push_rbac_deny(out: &mut String, name: &str)
    ensures
        final(out)@ == old(out)@ + rbac_deny(name@),
{
    let ghost before = out@;
    push_str(out, "bpf_log(\"RBAC ");
    push_str(out, name);
    push_str(out, " denied\");
                    bpf_stats_add(http_rbac_denied, 1);
                    return SK_DROP;");
    assert(out@ =~= before + rbac_deny(name@));
}

/// The check of one policy.
pub open spec fn rbac_policy(c1: Seq<char>, c2: Seq<char>, c3: Seq<char>, c4: Seq<char>, c5: Seq<char>, c6: Seq<char>, action: Seq<char>) -> Seq<char> {
    "if (("@ + c1 + ") && ("@ + c2 + ") && ("@ + c3 + ") && ("@ + c4 + ") && ("@ + c5 + ") && ("@ + c6 + ")) {
                       "@ + action + "
                    }"@
}

/// Appends `rbac_policy` to `out`.
pub fn push_rbac_policy(out: &mut String, c1: &str, c2: &str, c3: &str, c4: &str, c5: &str, c6: &str, action: &str)
    ensures
        final(out)@ == old(out)@ + rbac_policy(c1@, c2@, c3@, c4@, c5@, c6@, action@),
{
    let ghost before = out@;
    push_str(out, "if ((");
    push_str(out, c1);
    push_str(out, ") && (");
    push_str(out, c2);
    push_str(out, ") && (");
    push_str(out, c3);
    push_str(out, ") && (");
    push_str(out, c4);
    push_str(out, ") && (");
    push_str(out, c5);
    push_str(out, ") && (");
    push_str(out, c6);
    push_str(out, ")) {
                       ");
    push_str(out, action);
    push_str(out, "
                    }");
    assert(out@ =~= before + rbac_policy(c1@, c2@, c3@, c4@, c5@, c6@, action@));
}

} // verus!
