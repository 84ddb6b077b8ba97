# calico

The storage and dataplane logic of a Calico node agent, verified with
[Verus](https://github.com/verus-lang/verus), and the ordinary Rust around it.

Every component of the cluster reads and writes its state through the datastore: typed keys,
values with a revision, and writes that compare and swap. On each node an agent watches that
state, calculates what the node must be programmed with, and programs it: nftables chains and
sets for policy, masquerading for traffic that leaves the pools, routes and a VXLAN overlay
between the nodes.

## Layout

- `src/` is the library. All of it is verified: what the functions return is stated in their
  contracts, and what holds of several of them together is stated and proved in the proof
  functions whose names begin with `law_`.
  - Vocabulary: `text`, `seqs`, `ordmap`, `digest`, `payload`.
  - Datastore: `model`, `cas`, `mem`, `backend`, `kdd`, `syncer`, `watchersyncer`, `syncers`,
    `resources`, `conversion`, `k8s_policy`, `updateprocessors`.
  - Dataplane: `messages`, `delta`, `dataplane`, `managers`, `ipset_manager`, `route_manager`,
    `policy_table`, `endpoint_manager`, `policy_agent`, `policy_scope`, `policy_render`, `nft`,
    `nftables`, `traversal`, `nat_outgoing`, `pools`, `vxlan`, `vxlan_reconcile`, `kernel`,
    `config`, `selftest`.
- `app/` talks to the Kubernetes API, to netlink and to `nft`. It carries out what the library
  decides and hands back what came of it.
- `tests/` runs the library.

## What is not proved

Some functions of the standard library and of other crates are called behind contracts that are
believed: digests and encodings (`digest`), single members of JSON values (`payload`), quoting of
JSON text (`conversion`), Unicode case and white space and debug quoting (`text`), and the words
of a refused hexadecimal number (`vxlan`). Each such item says in its comment what it claims.
