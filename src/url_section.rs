//! The custom section that names a source-mapping URL.
use vstd::prelude::*;
use vstd::string::StringSliceAdditionalSpecFns;

use crate::leb::{convert_to_leb, leb_u, p128};

verus! {

/// The section name `sourceMappingURL`, as bytes.
pub open spec fn url_section_name() -> Seq<u8> {
    seq![115u8, 111, 117, 114, 99, 101, 77, 97, 112, 112, 105, 110, 103, 85, 82, 76]
}

/// The bytes of a custom section (id 0) named `sourceMappingURL` whose payload
/// is the URL `url`, every length written as unsigned LEB128.
pub open spec fn url_section(url: Seq<u8>) -> Seq<u8> {
    let name_size = leb_u(url_section_name().len());
    let url_size = leb_u(url.len());
    let payload = name_size + url_section_name() + url_size + url;
    seq![0u8] + leb_u(payload.len()) + payload
}

proof fn lemma_leb_len(n: nat, k: nat)
    requires
        n < p128(k),
        k >= 1,
    ensures
        leb_u(n).len() <= k,
        leb_u(n).len() >= 1,
    decreases n,
{
    if n >= 128 {
        if k == 0 {
            assert(p128(0) == 1);
        } else {
            assert(p128(k) == 128 * p128((k - 1) as nat));
            assert(n / 128 < p128((k - 1) as nat)) by (nonlinear_arith)
                requires
                    n < 128 * p128((k - 1) as nat),
            ;
            if k == 1 {
                assert(p128(0) == 1);
            }
            lemma_leb_len(n / 128, (k - 1) as nat);
        }
    } else {
        if k == 0 {
            assert(p128(0) == 1);
        }
    }
}

/// Appends the bytes of `b` to `out`.
fn append_bytes(out: &mut Vec<u8>, b: &[u8])
    ensures
        final(out)@ == old(out)@ + b@,
{
    let mut i: usize = 0;
    while i < b.len()
        invariant
            i <= b@.len(),
            out@ == old(out)@ + b@.subrange(0, i as int),
        decreases b@.len() - i,
    {
        assert(old(out)@ + b@.subrange(0, i + 1) =~= old(out)@ + b@.subrange(0, i as int) + seq![b@[i as int]]);
        out.push(b[i]);
        i = i + 1;
    }
    assert(b@.subrange(0, b@.len() as int) =~= b@);
}

/// Appends to `out` a custom section that records `url` as the module's
/// source-mapping URL.
pub fn add_source_mapping_url_section(url: &str, out: &mut Vec<u8>)
    requires
        url.spec_bytes().len() <= usize::MAX - 64,
    ensures
        final(out)@ == old(out)@ + url_section(url.spec_bytes()),
{
    let name: Vec<u8> = vec![115u8, 111, 117, 114, 99, 101, 77, 97, 112, 112, 105, 110, 103, 85, 82, 76];
    assert(name@ =~= url_section_name());
    let bytes = url.as_bytes();
    let custom_section_id = convert_to_leb(0);
    let name_size = convert_to_leb(name.len());
    let url_size = convert_to_leb(bytes.len());
    proof {
        reveal_with_fuel(p128, 11);
        assert(p128(10) > usize::MAX);
        lemma_leb_len(name@.len(), 10);
        lemma_leb_len(bytes@.len(), 10);
        reveal_with_fuel(leb_u, 2);
    }
    let payload_size = convert_to_leb(name_size.len() + name.len() + url_size.len() + bytes.len());
    append_bytes(out, custom_section_id.as_slice());
    append_bytes(out, payload_size.as_slice());
    append_bytes(out, name_size.as_slice());
    append_bytes(out, name.as_slice());
    append_bytes(out, url_size.as_slice());
    append_bytes(out, bytes);
    assert(final(out)@ =~= old(out)@ + url_section(url.spec_bytes()));
}

} // verus!
